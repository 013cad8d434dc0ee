//! Payloads and chunks on their way between devices.

use vstd::prelude::*;
use vstd::string::*;

use crate::attachments::{
    attachments_projected, known_attachments, AttachmentChanges, Content, Progress,
};
use crate::crypto::{open, seal, sealable, seals, EnvelopeView, SealedEnvelope, WorkspaceKey};
use crate::exchange::exchanged;
use crate::files::{hash_text, hex_of, is_hash, sha256, verify_chunk, DEFAULT_CHUNK_SIZE};
use crate::ids::{is_uuid, uuid_text};
use crate::model::{OperationView, PayloadView, SyncPayload, WholeNumber};
use crate::origin::{
    chunk_aad, chunk_fields, payload_aad, payload_fields, ticket_authorized, ApiError, OriginState,
    OriginView,
};
use crate::plain::views;
use crate::status::SyncState;
use crate::store::{ChunkSource, Replica, ReplicaView};
use crate::text::text_eq;
use crate::textmap::{ordered, TextMap};

verus! {

/// The largest payload, in bytes.
pub const MAX_ENVELOPE_BYTES: usize = 8_388_608;

/// How many chunks can be asked after at once.
pub const MAX_MISSING_HASHES: usize = 1_024;

/// What is bound to the payloads of a workspace.
pub open spec fn payload_bound(workspace: Seq<char>) -> Seq<u8> {
    crate::encoding::length_prefixed(payload_fields(workspace))
}

/// What is bound to a chunk of a workspace.
pub open spec fn chunk_bound(workspace: Seq<char>, hash: Seq<char>) -> Seq<u8> {
    crate::encoding::length_prefixed(chunk_fields(workspace, hash))
}

/// Every operation is by this device.
pub open spec fn all_by(operations: Seq<OperationView>, device: Seq<char>) -> bool {
    forall|i: int| 0 <= i < operations.len() ==> (#[trigger] operations[i]).dot.actor == device
}

/// What a workspace shows after an exchange: that it waits, where an operation waits for another
/// device.
pub fn status_after(pending: usize) -> (status: SyncState)
    ensures
        status == if pending == 0 {
            SyncState::Synced
        } else {
            SyncState::WaitingForDevice
        },
{
    if pending == 0 {
        SyncState::Synced
    } else {
        SyncState::WaitingForDevice
    }
}

/// What comes of an exchange with a device: what is taken in, what can then be shown of the
/// attachments, and the answer. What was taken in stays even where an attachment cannot be shown.
pub open spec fn exchange_taken(
    state: ReplicaView,
    device: Seq<char>,
    payload: PayloadView,
    sizes: Seq<usize>,
    directory: Seq<char>,
    files: Map<Seq<char>, u64>,
    contents: Map<Seq<char>, Seq<u8>>,
    now: WholeNumber,
) -> (ReplicaView, Result<(PayloadView, Progress), ApiError>) {
    if !all_by(payload.operations, device) {
        (state, Err(ApiError::InvalidRequest))
    } else {
        match exchanged(state, device, payload, sizes, now) {
            Err(_) => (state, Err(ApiError::InvalidRequest)),
            Ok((after, answer)) => match attachments_projected(
                after,
                ordered(known_attachments(after)),
                directory,
                files,
                contents,
                now.value,
            ) {
                Err(_) => (after, Err(ApiError::InvalidRequest)),
                Ok(progress) => (progress.state, Ok((answer, progress))),
            },
        }
    }
}

fn is_all_by(payload: &SyncPayload, device_id: &str) -> (result: bool)
    ensures
        result == all_by(payload@.operations, device_id@),
{
    let mut i: usize = 0;
    while i < payload.operations.len()
        invariant
            i <= payload.operations@.len(),
            forall|j: int|
                0 <= j < i ==> (#[trigger] payload@.operations[j]).dot.actor == device_id@,
        decreases payload.operations@.len() - i,
    {
        assert(payload@.operations[i as int] == payload.operations@[i as int]@);
        if !text_eq(payload.operations[i].dot.actor_id.as_str(), device_id) {
            return false;
        }
        i = i + 1;
    }
    true
}

/// Takes in what a device sends, shows what can then be shown of the attachments, and answers.
pub fn take_exchange(
    replica: &mut Replica,
    device_id: &str,
    payload: &SyncPayload,
    sizes: &[usize],
    attachments_dir: &str,
    files: &TextMap<u64>,
    contents: &TextMap<Content>,
    now: WholeNumber,
) -> (result: Result<(SyncPayload, AttachmentChanges), ApiError>)
    requires
        sizes@.len() == payload.operations@.len(),
    ensures
        match exchange_taken(
            old(replica)@,
            device_id@,
            payload@,
            sizes@,
            attachments_dir@,
            files@,
            contents@,
            now,
        ) {
            (state, Err(error)) => result == Err::<(SyncPayload, AttachmentChanges), ApiError>(
                error,
            ) && final(replica)@ == state,
            (state, Ok((answer, progress))) => (result matches Ok((sent, changes)) && sent@
                == answer && views(changes.installed@) == progress.installed && views(
                changes.obsolete@,
            ) == progress.obsolete) && final(replica)@ == state,
        },
{
    if !is_all_by(payload, device_id) {
        return Err(ApiError::InvalidRequest);
    }
    let answer = match replica.exchange(device_id, payload, sizes, now) {
        Err(_) => {
            return Err(ApiError::InvalidRequest);
        },
        Ok(answer) => answer,
    };
    match replica.project_ready_attachments(attachments_dir, files, contents, now.value) {
        Err(_) => Err(ApiError::InvalidRequest),
        Ok(changes) => Ok((answer, changes)),
    }
}

/// A message is in the envelope, and short enough.
pub open spec fn opens_within(
    envelope: EnvelopeView,
    key: Seq<u8>,
    aad: Seq<u8>,
    limit: int,
    result: Result<Vec<u8>, ApiError>,
) -> bool {
    &&& forall|message: Seq<u8>| #[trigger]
        seals(envelope, key, message, aad) ==> if message.len() <= limit {
            result matches Ok(opened) && opened@ == message
        } else {
            result == Err::<Vec<u8>, ApiError>(ApiError::PayloadTooLarge)
        }
    &&& (forall|message: Seq<u8>| !#[trigger] seals(envelope, key, message, aad)) ==> result
        == Err::<Vec<u8>, ApiError>(ApiError::InvalidRequest)
    &&& result matches Ok(opened) ==> seals(envelope, key, opened@, aad) && opened@.len() <= limit
}

fn open_within(key: &WorkspaceKey, envelope: &SealedEnvelope, aad: &[u8], limit: usize) -> (result:
    Result<Vec<u8>, ApiError>)
    ensures
        opens_within(envelope@, key@, aad@, limit as int, result),
{
    match open(key, envelope, aad) {
        Err(_) => Err(ApiError::InvalidRequest),
        Ok(message) => if message.len() > limit {
            Err(ApiError::PayloadTooLarge)
        } else {
            Ok(message)
        },
    }
}

impl OriginState {
    /// Opens what a device sends. Nothing but what was sealed for this workspace opens.
    pub fn open_payload(&self, device_id: &str, envelope: &SealedEnvelope) -> (result: Result<
        Vec<u8>,
        ApiError,
    >)
        ensures
            if uuid_text(device_id@) {
                opens_within(
                    envelope@,
                    self@.key,
                    payload_bound(self@.workspace),
                    MAX_ENVELOPE_BYTES as int,
                    result,
                )
            } else {
                result == Err::<Vec<u8>, ApiError>(ApiError::InvalidRequest)
            },
    {
        if !is_uuid(device_id) {
            return Err(ApiError::InvalidRequest);
        }
        let aad = payload_aad(self.workspace_id.as_str());
        open_within(&self.key, envelope, aad.as_slice(), MAX_ENVELOPE_BYTES)
    }

    /// Seals an answer for this workspace.
    pub fn seal_payload(&self, encoded: &[u8]) -> (result: Result<SealedEnvelope, ApiError>)
        ensures
            result is Ok <==> sealable(encoded@),
            result matches Ok(envelope) ==> seals(
                envelope@,
                self@.key,
                encoded@,
                payload_bound(self@.workspace),
            ),
            result matches Err(error) ==> error == ApiError::Internal,
    {
        let aad = payload_aad(self.workspace_id.as_str());
        match seal(&self.key, encoded, aad.as_slice()) {
            Err(_) => Err(ApiError::Internal),
            Ok(envelope) => Ok(envelope),
        }
    }

    /// Seals a chunk for this workspace. What was read must be what the address says.
    pub fn seal_chunk(&self, hash: &str, bytes: &[u8]) -> (result: Result<SealedEnvelope, ApiError>)
        ensures
            result is Ok <==> hex_of(sha256(bytes@)) == hash@ && sealable(bytes@),
            result matches Ok(envelope) ==> seals(
                envelope@,
                self@.key,
                bytes@,
                chunk_bound(self@.workspace, hash@),
            ),
            result matches Err(error) ==> error == ApiError::Internal,
    {
        if !verify_chunk(hash, bytes) {
            return Err(ApiError::Internal);
        }
        let aad = chunk_aad(self.workspace_id.as_str(), hash);
        match seal(&self.key, bytes, aad.as_slice()) {
            Err(_) => Err(ApiError::Internal),
            Ok(envelope) => Ok(envelope),
        }
    }

    /// Opens a chunk that a device sends under an address.
    pub fn open_chunk(&self, hash: &str, envelope: &SealedEnvelope) -> (result: Result<
        Vec<u8>,
        ApiError,
    >)
        ensures
            if hash_text(hash@) {
                opens_within(
                    envelope@,
                    self@.key,
                    chunk_bound(self@.workspace, hash@),
                    DEFAULT_CHUNK_SIZE as int,
                    result,
                )
            } else {
                result == Err::<Vec<u8>, ApiError>(ApiError::InvalidRequest)
            },
    {
        match validate_hash(hash) {
            Err(error) => {
                return Err(error);
            },
            Ok(()) => {},
        }
        let aad = chunk_aad(self.workspace_id.as_str(), hash);
        open_within(&self.key, envelope, aad.as_slice(), DEFAULT_CHUNK_SIZE)
    }

    /// A device has opened a socket.
    pub fn peer_joined(&mut self)
        ensures
            final(self)@ == (OriginView {
                peers: if old(self)@.peers < usize::MAX {
                    (old(self)@.peers + 1) as usize
                } else {
                    0
                },
                ..old(self)@
            }),
    {
        self.connected_peers = self.connected_peers.wrapping_add(1);
    }

    /// Lets a device listen for changes with a ticket, and nothing else to show; and tells what is
    /// shown then, given how many operations wait, as far as that is known.
    pub fn open_events(
        &mut self,
        has_credentials: bool,
        ticket: &str,
        client: &str,
        now: u64,
        now_ms: u64,
        pending: Option<usize>,
    ) -> (result: Result<SyncState, ApiError>)
        ensures
            if has_credentials {
                result == Err::<SyncState, ApiError>(ApiError::Unauthorized) && final(self)@
                    == old(self)@
            } else {
                let (after, admitted) = ticket_authorized(
                    old(self)@,
                    ticket@,
                    client@,
                    now,
                    now_ms,
                );
                &&& final(self)@ == after
                &&& result == match admitted {
                    Err(error) => Err::<SyncState, ApiError>(error),
                    Ok(_) => Ok(
                        if pending == Some(0usize) {
                            SyncState::Synced
                        } else {
                            SyncState::WaitingForDevice
                        },
                    ),
                }
            },
    {
        if has_credentials {
            return Err(ApiError::Unauthorized);
        }
        match self.authorize_ticket(ticket, client, now, now_ms) {
            Err(error) => Err(error),
            Ok(_) => match pending {
                Some(count) => Ok(status_after(count)),
                None => Ok(SyncState::WaitingForDevice),
            },
        }
    }

    /// A device has left. Where it was the last one, the workspace waits for another.
    pub fn peer_left(&mut self) -> (status: Option<SyncState>)
        ensures
            final(self)@ == (OriginView {
                peers: if old(self)@.peers > 0 {
                    (old(self)@.peers - 1) as usize
                } else {
                    usize::MAX
                },
                ..old(self)@
            }),
            status == if old(self)@.peers == 1 {
                Some(SyncState::WaitingForDevice)
            } else {
                None
            },
    {
        let last = self.connected_peers == 1;
        self.connected_peers = self.connected_peers.wrapping_sub(1);
        if last {
            Some(SyncState::WaitingForDevice)
        } else {
            None
        }
    }
}

/// Refuses what is no address of a chunk.
pub fn validate_hash(hash: &str) -> (result: Result<(), ApiError>)
    ensures
        result == if hash_text(hash@) {
            Ok::<(), ApiError>(())
        } else {
            Err(ApiError::InvalidRequest)
        },
{
    if is_hash(hash) {
        Ok(())
    } else {
        Err(ApiError::InvalidRequest)
    }
}

/// Whether a chunk is there.
pub fn chunk_head(replica: &Replica, hash: &str) -> (result: Result<bool, ApiError>)
    ensures
        result == if hash_text(hash@) {
            Ok::<bool, ApiError>(replica@.chunks.contains_key(hash@))
        } else {
            Err(ApiError::InvalidRequest)
        },
{
    match validate_hash(hash) {
        Err(error) => {
            return Err(error);
        },
        Ok(()) => {},
    }
    Ok(replica.chunk_source(hash).is_some())
}

/// Where the bytes of a chunk that is asked for are to be read from.
pub fn locate_chunk<'a>(replica: &'a Replica, hash: &str) -> (result: Result<
    &'a ChunkSource,
    ApiError,
>)
    ensures
        if !hash_text(hash@) {
            result == Err::<&'a ChunkSource, ApiError>(ApiError::InvalidRequest)
        } else if !replica@.chunks.contains_key(hash@) {
            result == Err::<&'a ChunkSource, ApiError>(ApiError::NotFound)
        } else if replica@.chunks[hash@].size > DEFAULT_CHUNK_SIZE {
            result == Err::<&'a ChunkSource, ApiError>(ApiError::InvalidRequest)
        } else {
            result matches Ok(source) && source@ == replica@.chunks[hash@]
        },
{
    match validate_hash(hash) {
        Err(error) => {
            return Err(error);
        },
        Ok(()) => {},
    }
    match replica.chunk_source(hash) {
        None => Err(ApiError::NotFound),
        Some(source) => if source.size > DEFAULT_CHUNK_SIZE as u64 {
            Err(ApiError::InvalidRequest)
        } else {
            Ok(source)
        },
    }
}

/// The addresses that were asked after and of which no chunk is there.
pub open spec fn lacking(state: ReplicaView, hashes: Seq<Seq<char>>) -> Set<Seq<char>> {
    Set::new(|hash: Seq<char>| hashes.contains(hash) && !state.chunks.contains_key(hash))
}

/// Which of the chunks that are asked after are not there: each once, in order.
pub fn missing_chunks(replica: &Replica, hashes: &[String]) -> (result: Result<
    Vec<String>,
    ApiError,
>)
    ensures
        if hashes@.len() > MAX_MISSING_HASHES {
            result == Err::<Vec<String>, ApiError>(ApiError::PayloadTooLarge)
        } else if exists|i: int| 0 <= i < hashes@.len() && !hash_text(#[trigger] hashes@[i]@) {
            result == Err::<Vec<String>, ApiError>(ApiError::InvalidRequest)
        } else {
            result matches Ok(missing) && views(missing@) == ordered(
                lacking(replica@, views(hashes@)),
            )
        },
{
    if hashes.len() > MAX_MISSING_HASHES {
        return Err(ApiError::PayloadTooLarge);
    }
    let ghost all = views(hashes@);
    let mut unique: TextMap<u64> = TextMap::new();
    let mut i: usize = 0;
    while i < hashes.len()
        invariant
            all == views(hashes@),
            hashes@.len() <= MAX_MISSING_HASHES,
            i <= hashes@.len(),
            forall|j: int| 0 <= j < i ==> hash_text(#[trigger] hashes@[j]@),
            forall|hash: Seq<char>| #[trigger]
                unique@.contains_key(hash) <==> all.take(i as int).contains(hash)
                    && !replica@.chunks.contains_key(hash),
        decreases hashes@.len() - i,
    {
        let hash = hashes[i].as_str();
        if let Err(error) = validate_hash(hash) {
            assert(!hash_text(hashes@[i as int]@));
            return Err(error);
        }
        let ghost before = unique@;
        if replica.chunk_source(hash).is_none() {
            unique.insert(hash.to_owned(), 0);
        }
        proof {
            assert(all.take(i + 1) =~= all.take(i as int).push(hash@));
            assert forall|any: Seq<char>| #[trigger]
                unique@.contains_key(any) <==> all.take(i + 1).contains(any)
                    && !replica@.chunks.contains_key(any) by {
                let shorter = all.take(i as int);
                let longer = shorter.push(hash@);
                if longer.contains(any) {
                    let j = choose|j: int| 0 <= j < longer.len() && longer[j] == any;
                    if j < shorter.len() {
                        assert(shorter[j] == any);
                    }
                }
                if shorter.contains(any) {
                    let j = choose|j: int| 0 <= j < shorter.len() && shorter[j] == any;
                    assert(longer[j] == any);
                }
                assert(longer[shorter.len() as int] == hash@);
                assert(before.contains_key(any) <==> shorter.contains(any)
                    && !replica@.chunks.contains_key(any));
            }
        }
        i = i + 1;
    }
    assert(all.take(i as int) =~= all);
    assert(unique@.dom() =~= lacking(replica@, all));
    Ok(unique.key_list())
}

} // verus!
