//! The batches that go through the cloud store: consecutive operations of one device, sealed.

use vstd::prelude::*;

use vstd::string::*;
use vstd::utf8::*;

use crate::cloud::CloudBatch;
use crate::crypto::{
    open, seal, sealable, seals, well_encoded, CryptoError, SealedEnvelope, WorkspaceKey,
};
use crate::encoding::lemma_length_prefixed_injective;
use crate::exchange::{
    claim_covered, exchanged, gapless, has_counter, lemma_items_entities, lemma_sections_entities,
    observe_all, observe_operations, received, sections_shown,
};
use crate::files::{FileManifest, ManifestView};
use crate::log_laws::lemma_log_with_members;
use crate::model::{
    counter_of, observe, DotView, EntityKind, Mutation, MutationView, Operation, OperationView,
    PayloadView, SyncPayload, VersionVector, WholeNumber, SYNC_SCHEMA_VERSION,
};
use crate::origin::{chunk_aad, lemma_utf8_bound, length_prefixed, text_fields};
use crate::plain::{views, Plain};
use crate::store::{LoggedOperation, LoggedView, Replica, ReplicaView, StoreError};
use crate::text::{decimal, decimal_text, lemma_decimal, lemma_encode_utf8_injective, text_eq};
use crate::textmap::{ordered, TextMap};
use crate::transfer::chunk_bound;

verus! {

/// The operation of a dot, where the log holds one.
pub open spec fn logged(log: Seq<LoggedView>, dot: DotView) -> Option<OperationView>
    decreases log.len(),
{
    if log.len() == 0 {
        None
    } else if log.first().operation.dot == dot {
        Some(log.first().operation)
    } else {
        logged(log.drop_first(), dot)
    }
}

/// The operations of a device that follow a counter, one after the other without a gap, up to a
/// limit.
pub open spec fn next_run(log: Seq<LoggedView>, actor: Seq<char>, after: u64, limit: nat) -> Seq<
    OperationView,
>
    decreases limit,
{
    if limit == 0 || after == u64::MAX {
        Seq::empty()
    } else {
        match logged(log, DotView { actor, counter: (after + 1) as u64 }) {
            None => Seq::empty(),
            Some(operation) => seq![operation] + next_run(
                log,
                actor,
                (after + 1) as u64,
                (limit - 1) as nat,
            ),
        }
    }
}

fn find_logged<'a>(log: &'a [LoggedOperation], actor: &str, counter: u64) -> (found: Option<
    &'a Operation,
>)
    ensures
        logged(views(log@), DotView { actor: actor@, counter }) == match found {
            Some(operation) => Some(operation@),
            None => None,
        },
{
    let ghost all = views(log@);
    let ghost dot = DotView { actor: actor@, counter };
    let mut i: usize = 0;
    assert(all.skip(0) =~= all);
    while i < log.len()
        invariant
            all == views(log@),
            dot == (DotView { actor: actor@, counter }),
            i <= log@.len(),
            logged(all.skip(i as int), dot) == logged(all, dot),
        decreases log@.len() - i,
    {
        proof {
            assert(all.skip(i as int).first() == log@[i as int]@);
            assert(all.skip(i as int).drop_first() =~= all.skip(i + 1));
        }
        let known = &log[i].operation;
        if known.dot.counter == counter && text_eq(known.dot.actor_id.as_str(), actor) {
            return Some(known);
        }
        i = i + 1;
    }
    assert(all.skip(i as int) =~= Seq::empty());
    None
}

/// What a device sends to the store behind a counter: the operations that follow, and how far they
/// reach.
pub open spec fn outbound(state: ReplicaView, actor: Seq<char>, after: u64, limit: nat) -> PayloadView {
    let operations = next_run(state.log, actor, after, limit);
    PayloadView {
        schema_version: SYNC_SCHEMA_VERSION,
        workspace: state.workspace,
        frontier: observe_all(Map::empty(), operations),
        operations,
    }
}

impl Replica {
    /// The next operations of a device that the store has yet to take, at most so many.
    pub fn cloud_outbound_payload(&self, actor_id: &str, accepted_through: u64, limit: usize) -> (
        payload: SyncPayload)
        ensures
            payload@ == outbound(self@, actor_id@, accepted_through, limit as nat),
    {
        let ghost log = self@.log;
        let ghost whole = next_run(log, actor_id@, accepted_through, limit as nat);
        let mut operations: Vec<Operation> = Vec::new();
        let mut after: u64 = accepted_through;
        let mut going = true;
        assert(views(operations@) =~= Seq::empty());
        assert(whole =~= views(operations@) + whole);
        while going && operations.len() < limit && after < 0xffff_ffff_ffff_ffff
            invariant
                log == self@.log,
                whole == next_run(log, actor_id@, accepted_through, limit as nat),
                operations@.len() <= limit,
                going ==> whole == views(operations@) + next_run(
                    log,
                    actor_id@,
                    after,
                    (limit - operations@.len()) as nat,
                ),
                !going ==> whole == views(operations@),
            decreases limit - operations@.len(), (if going { 1int } else { 0int }),
        {
            let ghost before = views(operations@);
            match find_logged(self.log.as_slice(), actor_id, after + 1) {
                None => {
                    assert(before + Seq::empty() =~= before);
                    going = false;
                },
                Some(operation) => {
                    let ghost next = operation@;
                    operations.push(operation.duplicate());
                    after = after + 1;
                    proof {
                        assert(views(operations@) =~= before.push(next));
                        let rest = next_run(
                            log,
                            actor_id@,
                            after,
                            (limit - operations@.len()) as nat,
                        );
                        assert(before + (seq![next] + rest) =~= before.push(next) + rest);
                    }
                },
            }
        }
        assert(views(operations@) + Seq::empty() =~= views(operations@));
        let mut frontier = VersionVector::default();
        observe_operations(&mut frontier, operations.as_slice());
        SyncPayload {
            schema_version: SYNC_SCHEMA_VERSION,
            workspace_id: self.workspace_id.duplicate(),
            frontier,
            operations,
        }
    }
}

/// What is bound to a batch.
pub open spec fn batch_fields(workspace: Seq<char>, actor: Seq<char>, first: u64, last: u64) -> Seq<
    Seq<u8>,
> {
    seq![
        encode_utf8("clippy-sync-batch"@),
        encode_utf8("1"@),
        encode_utf8(workspace),
        encode_utf8(actor),
        encode_utf8(decimal(first as nat)),
        encode_utf8(decimal(last as nat)),
    ]
}

/// What is bound to a batch: the workspace, the device and the counters.
pub fn batch_aad(workspace_id: &str, actor_id: &str, first: u64, last: u64) -> (aad: Vec<u8>)
    ensures
        aad@ == crate::encoding::length_prefixed(
            batch_fields(workspace_id@, actor_id@, first, last),
        ),
{
    let first_text = decimal_text(first);
    let last_text = decimal_text(last);
    let fields = [
        "clippy-sync-batch",
        "1",
        workspace_id,
        actor_id,
        first_text.as_str(),
        last_text.as_str(),
    ];
    assert(text_fields(fields@) =~= batch_fields(workspace_id@, actor_id@, first, last));
    length_prefixed(fields.as_slice())
}

/// Batches are bound to their workspace, their device and their counters.
pub proof fn lemma_batch_aad_binds(
    workspace: Seq<char>,
    actor: Seq<char>,
    first: u64,
    last: u64,
    other_workspace: Seq<char>,
    other_actor: Seq<char>,
    other_first: u64,
    other_last: u64,
)
    requires
        crate::encoding::length_prefixed(batch_fields(workspace, actor, first, last))
            == crate::encoding::length_prefixed(
            batch_fields(other_workspace, other_actor, other_first, other_last),
        ),
        encode_utf8(workspace).len() < 0x1_0000_0000,
        encode_utf8(actor).len() < 0x1_0000_0000,
        encode_utf8(other_workspace).len() < 0x1_0000_0000,
        encode_utf8(other_actor).len() < 0x1_0000_0000,
    ensures
        workspace == other_workspace,
        actor == other_actor,
        first == other_first,
        last == other_last,
{
    let x = batch_fields(workspace, actor, first, last);
    let y = batch_fields(other_workspace, other_actor, other_first, other_last);
    reveal_strlit("clippy-sync-batch");
    reveal_strlit("1");
    lemma_utf8_bound("clippy-sync-batch"@);
    lemma_utf8_bound("1"@);
    lemma_counter_length(first);
    lemma_counter_length(last);
    lemma_counter_length(other_first);
    lemma_counter_length(other_last);
    lemma_length_prefixed_injective(x, y);
    assert(x[2] == y[2] && x[3] == y[3] && x[4] == y[4] && x[5] == y[5]);
    lemma_encode_utf8_injective(workspace, other_workspace);
    lemma_encode_utf8_injective(actor, other_actor);
    lemma_encode_utf8_injective(decimal(first as nat), decimal(other_first as nat));
    lemma_encode_utf8_injective(decimal(last as nat), decimal(other_last as nat));
    lemma_decimal(first as nat);
    lemma_decimal(other_first as nat);
    lemma_decimal(last as nat);
    lemma_decimal(other_last as nat);
}

proof fn lemma_counter_length(counter: u64)
    ensures
        encode_utf8(decimal(counter as nat)).len() < 0x1_0000_0000,
{
    assert(ten_to(20) > u64::MAX) by {
        reveal_with_fuel(ten_to, 21);
    }
    lemma_digits(counter as nat, 20);
    lemma_utf8_bound(decimal(counter as nat));
}

spec fn ten_to(digits: nat) -> nat
    decreases digits,
{
    if digits == 0 {
        1
    } else {
        10 * ten_to((digits - 1) as nat)
    }
}

proof fn lemma_digits(n: nat, digits: nat)
    requires
        n < ten_to(digits),
        digits > 0,
    ensures
        decimal(n).len() <= digits,
    decreases digits,
{
    if n >= 10 {
        lemma_digits(n / 10, (digits - 1) as nat);
    }
}

/// Seals the encoding of consecutive operations of a device.
pub fn seal_batch(
    key: &WorkspaceKey,
    workspace_id: &str,
    actor_id: &str,
    first: u64,
    last: u64,
    encoded: &[u8],
) -> (result: Result<CloudBatch, CryptoError>)
    ensures
        result is Ok <==> sealable(encoded@),
        result matches Ok(batch) ==> batch.actor_id@ == actor_id@ && batch.first_counter == first
            && batch.last_counter == last && seals(
            batch.envelope@,
            key@,
            encoded@,
            crate::encoding::length_prefixed(
                batch_fields(workspace_id@, actor_id@, first, last),
            ),
        ),
        result matches Err(error) ==> error == CryptoError::EncryptionFailed,
{
    let aad = batch_aad(workspace_id, actor_id, first, last);
    match seal(key, encoded, aad.as_slice()) {
        Err(error) => Err(error),
        Ok(envelope) => Ok(
            CloudBatch {
                actor_id: actor_id.to_owned(),
                first_counter: first,
                last_counter: last,
                envelope,
            },
        ),
    }
}

/// Opens a batch. Nothing opens but what was sealed for this workspace, as operations of this
/// device with these counters.
pub fn open_batch(key: &WorkspaceKey, workspace_id: &str, batch: &CloudBatch) -> (result: Result<
    Vec<u8>,
    CryptoError,
>)
    ensures
        forall|message: Seq<u8>| #[trigger]
            seals(
                batch.envelope@,
                key@,
                message,
                crate::encoding::length_prefixed(
                    batch_fields(
                        workspace_id@,
                        batch.actor_id@,
                        batch.first_counter,
                        batch.last_counter,
                    ),
                ),
            ) ==> (result matches Ok(opened) && opened@ == message),
        result matches Ok(opened) ==> seals(
            batch.envelope@,
            key@,
            opened@,
            crate::encoding::length_prefixed(
                batch_fields(
                    workspace_id@,
                    batch.actor_id@,
                    batch.first_counter,
                    batch.last_counter,
                ),
            ),
        ),
        result matches Err(error) ==> error == (if batch.envelope@.version != 1 {
            CryptoError::UnsupportedVersion
        } else if !well_encoded(batch.envelope@) {
            CryptoError::InvalidEncoding
        } else {
            CryptoError::AuthenticationFailed
        }),
{
    let aad = batch_aad(
        workspace_id,
        batch.actor_id.as_str(),
        batch.first_counter,
        batch.last_counter,
    );
    open(key, &batch.envelope, aad.as_slice())
}

/// Seals a chunk for the store, bound to its workspace and its address.
pub fn seal_stored_chunk(key: &WorkspaceKey, workspace_id: &str, hash: &str, bytes: &[u8]) -> (
    result: Result<SealedEnvelope, CryptoError>)
    ensures
        result is Ok <==> sealable(bytes@),
        result matches Ok(envelope) ==> seals(
            envelope@,
            key@,
            bytes@,
            chunk_bound(workspace_id@, hash@),
        ),
        result matches Err(error) ==> error == CryptoError::EncryptionFailed,
{
    let aad = chunk_aad(workspace_id, hash);
    seal(key, bytes, aad.as_slice())
}

/// Opens a chunk of the store. Nothing opens but what was sealed for this workspace under this
/// address.
pub fn open_stored_chunk(
    key: &WorkspaceKey,
    workspace_id: &str,
    hash: &str,
    envelope: &SealedEnvelope,
) -> (result: Result<Vec<u8>, CryptoError>)
    ensures
        forall|message: Seq<u8>| #[trigger]
            seals(envelope@, key@, message, chunk_bound(workspace_id@, hash@)) ==> (
            result matches Ok(opened) && opened@ == message),
        result matches Ok(opened) ==> seals(
            envelope@,
            key@,
            opened@,
            chunk_bound(workspace_id@, hash@),
        ),
        result matches Err(error) ==> error == (if envelope@.version != 1 {
            CryptoError::UnsupportedVersion
        } else if !well_encoded(envelope@) {
            CryptoError::InvalidEncoding
        } else {
            CryptoError::AuthenticationFailed
        }),
{
    let aad = chunk_aad(workspace_id, hash);
    open(key, envelope, aad.as_slice())
}

/// The manifest names a chunk.
pub open spec fn names_chunk(manifest: ManifestView, hash: Seq<char>) -> bool {
    exists|i: int| 0 <= i < manifest.chunks.len() && (#[trigger] manifest.chunks[i]).sha256 == hash
}

/// The operation tells of a file, and a chunk of it is named.
pub open spec fn tells_of(operation: OperationView, hash: Seq<char>) -> bool {
    match operation.mutation {
        MutationView::SetMetadata { field, value } => match value.manifest() {
            Some(manifest) => names_chunk(manifest, hash),
            None => false,
        },
        _ => false,
    }
}

/// An operation of a device behind a counter tells of the chunk.
pub open spec fn told_behind(log: Seq<LoggedView>, actor: Seq<char>, after: u64, hash: Seq<char>) -> bool {
    exists|i: int|
        0 <= i < log.len() && (#[trigger] log[i]).operation.dot.actor == actor
            && log[i].operation.dot.counter > after && tells_of(log[i].operation, hash)
}

/// The chunks that operations of a device behind a counter tell of.
pub open spec fn chunks_behind(log: Seq<LoggedView>, actor: Seq<char>, after: u64) -> Set<Seq<char>> {
    Set::new(|hash: Seq<char>| told_behind(log, actor, after, hash))
}

/// An attachment that is not deleted needs the chunk.
pub open spec fn needed_by(state: ReplicaView, id: Seq<char>, hash: Seq<char>) -> bool {
    &&& state.entities.contains_key((EntityKind::Attachment, id))
    &&& state.entities[(EntityKind::Attachment, id)].deleted_at is None
    &&& match state.entities[(EntityKind::Attachment, id)].value("manifest"@) {
        Some(value) => match value.manifest() {
            Some(manifest) => names_chunk(manifest, hash),
            None => false,
        },
        None => false,
    }
}

/// The chunks that attachments need and that are not there.
pub open spec fn chunks_lacking(state: ReplicaView) -> Set<Seq<char>> {
    Set::new(
        |hash: Seq<char>|
            !state.chunks.contains_key(hash) && exists|id: Seq<char>| #[trigger]
                needed_by(state, id, hash),
    )
}

fn note_chunks(hashes: &mut TextMap<bool>, manifest: &FileManifest)
    ensures
        forall|hash: Seq<char>| #[trigger]
            final(hashes)@.contains_key(hash) <==> old(hashes)@.contains_key(hash) || names_chunk(
                manifest@,
                hash,
            ),
{
    let ghost chunks = manifest@.chunks;
    let mut i: usize = 0;
    while i < manifest.chunks.len()
        invariant
            chunks == manifest@.chunks,
            i <= manifest.chunks@.len(),
            forall|hash: Seq<char>| #[trigger]
                hashes@.contains_key(hash) <==> old(hashes)@.contains_key(hash) || exists|j: int|
                    0 <= j < i && (#[trigger] chunks[j]).sha256 == hash,
        decreases manifest.chunks@.len() - i,
    {
        assert(chunks[i as int] == manifest.chunks@[i as int]@);
        hashes.insert(manifest.chunks[i].sha256.duplicate(), true);
        i = i + 1;
    }
}

impl Replica {
    /// The chunks that the store has yet to take: those that the operations of a device behind a
    /// counter tell of, each once, in order.
    pub fn pending_upload_chunk_hashes(&self, actor_id: &str, accepted_through: u64) -> (hashes: Vec<
        String,
    >)
        ensures
            views(hashes@) == ordered(chunks_behind(self@.log, actor_id@, accepted_through)),
    {
        let ghost log = self@.log;
        let mut hashes: TextMap<bool> = TextMap::new();
        let mut i: usize = 0;
        while i < self.log.len()
            invariant
                log == self@.log,
                i <= self.log@.len(),
                forall|hash: Seq<char>| #[trigger]
                    hashes@.contains_key(hash) <==> exists|j: int|
                        0 <= j < i && (#[trigger] log[j]).operation.dot.actor == actor_id@
                            && log[j].operation.dot.counter > accepted_through && tells_of(
                            log[j].operation,
                            hash,
                        ),
            decreases self.log@.len() - i,
        {
            let operation = &self.log[i].operation;
            assert(log[i as int].operation == operation@);
            if operation.dot.counter > accepted_through && text_eq(
                operation.dot.actor_id.as_str(),
                actor_id,
            ) {
                if let Mutation::SetMetadata { field, value } = &operation.mutation {
                    if let Some(manifest) = value.as_manifest() {
                        note_chunks(&mut hashes, manifest);
                    }
                }
            }
            i = i + 1;
        }
        assert(hashes@.dom() =~= chunks_behind(log, actor_id@, accepted_through));
        hashes.key_list()
    }

    /// The chunks that attachments need and that are not there, each once, in order.
    pub fn missing_chunk_hashes(&self) -> (hashes: Vec<String>)
        ensures
            views(hashes@) == ordered(chunks_lacking(self@)),
    {
        let ghost state = self@;
        let entities = &self.entities.attachments;
        let count: usize = entities.len();
        let ghost ids = entities.keys();
        let mut needed: TextMap<bool> = TextMap::new();
        let mut i: usize = 0;
        while i < count
            invariant
                state == self@,
                entities == self.entities.attachments,
                count == ids.len(),
                ids == entities.keys(),
                i <= count,
                forall|hash: Seq<char>| #[trigger]
                    needed@.contains_key(hash) <==> exists|j: int|
                        0 <= j < i && needed_by(state, #[trigger] ids[j], hash),
            decreases count - i,
        {
            let entity = entities.value_at(i);
            assert(state.entities[(EntityKind::Attachment, ids[i as int])] == entity@);
            if !entity.is_deleted() {
                if let Some(value) = entity.value("manifest") {
                    if let Some(manifest) = value.as_manifest() {
                        note_chunks(&mut needed, manifest);
                    }
                }
            }
            i = i + 1;
        }
        let total: usize = needed.len();
        let ghost names = needed.keys();
        let mut hashes: TextMap<bool> = TextMap::new();
        let mut k: usize = 0;
        while k < total
            invariant
                state == self@,
                total == names.len(),
                names == needed.keys(),
                k <= total,
                forall|hash: Seq<char>| #[trigger]
                    hashes@.contains_key(hash) <==> !state.chunks.contains_key(hash) && exists|
                        j: int,
                    |
                        0 <= j < k && #[trigger] names[j] == hash,
            decreases total - k,
        {
            let hash = needed.key_at(k);
            if self.chunks.get(hash.as_str()).is_none() {
                hashes.insert(hash.duplicate(), true);
            }
            k = k + 1;
        }
        proof {
            assert forall|hash: Seq<char>| #[trigger]
                hashes@.dom().contains(hash) <==> chunks_lacking(state).contains(hash) by {
                if needed@.contains_key(hash) {
                    let j = names.index_of(hash);
                    assert(names[j] == hash);
                }
                if exists|id: Seq<char>| #[trigger] needed_by(state, id, hash) {
                    let id = choose|id: Seq<char>| #[trigger] needed_by(state, id, hash);
                    assert(entities@.contains_key(id));
                    let j = ids.index_of(id);
                    assert(ids[j] == id);
                }
            }
            assert(hashes@.dom() =~= chunks_lacking(state));
        }
        hashes.key_list()
    }
}

/// What a copy becomes by a batch. The counters that are bound to it must be those of its first and
/// its last operation, and the operations must follow the rules of any that are received.
pub open spec fn batch_applied(
    state: ReplicaView,
    actor: Seq<char>,
    first: u64,
    last: u64,
    payload: PayloadView,
    sizes: Seq<usize>,
    now: WholeNumber,
) -> Result<ReplicaView, StoreError> {
    if payload.operations.len() == 0 || payload.operations.first().dot.counter != first
        || payload.operations.last().dot.counter != last {
        Err(StoreError::InvalidPayload)
    } else {
        match exchanged(
            state,
            actor,
            PayloadView { frontier: Map::empty(), ..payload },
            sizes,
            now,
        ) {
            Err(error) => Err(error),
            Ok((next, answer)) => Ok(next),
        }
    }
}

impl Replica {
    /// Takes a batch in, and tells how many of its operations were new. The sizes are the lengths
    /// of the encodings of the operations.
    pub fn apply_cloud_batch(
        &mut self,
        actor_id: &str,
        first: u64,
        last: u64,
        payload: SyncPayload,
        sizes: &[usize],
        now: WholeNumber,
    ) -> (result: Result<u64, StoreError>)
        requires
            sizes@.len() == payload.operations@.len(),
        ensures
            match batch_applied(old(self)@, actor_id@, first, last, payload@, sizes@, now) {
                Err(error) => result == Err::<u64, StoreError>(error) && final(self)@ == old(self)@,
                Ok(state) => final(self)@ == state && (result matches Ok(count) && count
                    == state.log.len() - old(self)@.log.len()),
            },
    {
        let count: usize = payload.operations.len();
        if count == 0 {
            return Err(StoreError::InvalidPayload);
        }
        assert(payload@.operations.first() == payload.operations@[0]@);
        assert(payload@.operations.last() == payload.operations@[count - 1]@);
        if payload.operations[0].dot.counter != first || payload.operations[count - 1].dot.counter
            != last {
            return Err(StoreError::InvalidPayload);
        }
        let ghost told = PayloadView { frontier: Map::empty(), ..payload@ };
        let bare = SyncPayload {
            schema_version: payload.schema_version,
            workspace_id: payload.workspace_id,
            frontier: VersionVector::default(),
            operations: payload.operations,
        };
        assert(bare@ == told);
        let before: usize = self.log.len();
        let ghost start = self@;
        match self.exchange(actor_id, &bare, sizes, now) {
            Err(error) => Err(error),
            Ok(answer) => {
                proof {
                    lemma_exchange_grows(start, actor_id@, told, sizes@, now);
                }
                Ok((self.log.len() - before) as u64)
            },
        }
    }
}

proof fn lemma_received_grows(state: ReplicaView, operations: Seq<OperationView>, now: i64)
    ensures
        received(state, operations, now) matches Ok((after, touched)) ==> after.log.len()
            >= state.log.len(),
    decreases operations.len(),
{
    if operations.len() > 0 {
        lemma_received_grows(state, operations.drop_last(), now);
        if let Ok((before, touched)) = received(state, operations.drop_last(), now) {
            lemma_log_with_members(
                before.log,
                LoggedView { operation: operations.last(), received_at: now },
            );
        }
    }
}

proof fn lemma_exchange_grows(
    state: ReplicaView,
    peer: Seq<char>,
    payload: PayloadView,
    sizes: Seq<usize>,
    now: WholeNumber,
)
    ensures
        exchanged(state, peer, payload, sizes, now) matches Ok((after, answer)) ==> after.log.len()
            >= state.log.len(),
{
    lemma_received_grows(state, payload.operations, now.value);
    if let Ok((taken, touched)) = received(state, payload.operations, now.value) {
        lemma_sections_entities(taken, ordered(touched.sections), now);
        lemma_items_entities(
            sections_shown(taken, ordered(touched.sections), now),
            ordered(touched.items),
            now,
        );
    }
}

/// A batch holds consecutive operations of the device, from the one behind the counter on.
pub proof fn lemma_run_is_consecutive(
    log: Seq<LoggedView>,
    actor: Seq<char>,
    after: u64,
    limit: nat,
    i: int,
)
    requires
        0 <= i < next_run(log, actor, after, limit).len(),
    ensures
        next_run(log, actor, after, limit).len() <= limit,
        next_run(log, actor, after, limit)[i].dot.actor == actor,
        next_run(log, actor, after, limit)[i].dot.counter == after + 1 + i,
    decreases limit,
{
    let dot = DotView { actor, counter: (after + 1) as u64 };
    lemma_logged(log, dot);
    let rest = next_run(log, actor, (after + 1) as u64, (limit - 1) as nat);
    if i > 0 {
        lemma_run_is_consecutive(log, actor, (after + 1) as u64, (limit - 1) as nat, i - 1);
    } else if rest.len() > 0 {
        lemma_run_is_consecutive(log, actor, (after + 1) as u64, (limit - 1) as nat, 0);
    }
}

proof fn lemma_logged(log: Seq<LoggedView>, dot: DotView)
    ensures
        logged(log, dot) matches Some(operation) ==> operation.dot == dot,
    decreases log.len(),
{
    if log.len() > 0 {
        lemma_logged(log.drop_first(), dot);
    }
}

/// Nothing is skipped between two batches: a full batch and the one behind it are what one batch
/// of both sizes would be. A batch that is made smaller is therefore the front of the larger one.
pub proof fn lemma_batches_join(
    log: Seq<LoggedView>,
    actor: Seq<char>,
    after: u64,
    first: nat,
    second: nat,
)
    requires
        after + first <= u64::MAX,
        next_run(log, actor, after, first).len() == first,
    ensures
        next_run(log, actor, after, first + second) == next_run(log, actor, after, first)
            + next_run(log, actor, (after + first) as u64, second),
    decreases first,
{
    if first == 0 {
        assert(next_run(log, actor, after, second) =~= Seq::<OperationView>::empty() + next_run(
            log,
            actor,
            after,
            second,
        ));
    } else {
        let next = (after + 1) as u64;
        let rest = next_run(log, actor, next, (first - 1) as nat);
        lemma_batches_join(log, actor, next, (first - 1) as nat, second);
        let operation = logged(log, DotView { actor, counter: next })->0;
        assert((first + second - 1) as nat == (first - 1) as nat + second);
        assert(seq![operation] + (rest + next_run(log, actor, (after + first) as u64, second))
            =~= (seq![operation] + rest) + next_run(log, actor, (after + first) as u64, second));
    }
}

/// A batch fits what another device knows, wherever that device has the operations before it: it
/// leaves no gap there, and claims nothing that it does not bring.
pub proof fn lemma_sent_batch_fits(
    log: Seq<LoggedView>,
    actor: Seq<char>,
    after: u64,
    limit: nat,
    known: Map<Seq<char>, u64>,
)
    requires
        counter_of(known, actor) >= after,
        after + limit < u64::MAX,
    ensures
        ({
            let run = next_run(log, actor, after, limit);
            gapless(run, counter_of(known, actor)) && claim_covered(
                observe_all(Map::empty(), run),
                observe_all(known, run),
            )
        }),
{
    let run = next_run(log, actor, after, limit);
    let current = counter_of(known, actor);
    if run.len() > 0 {
        lemma_run_is_consecutive(log, actor, after, limit, 0);
    }
    assert forall|i: int| 0 <= i < run.len() && (#[trigger] run[i]).dot.counter > current implies {
        let counter = run[i].dot.counter;
        counter < u64::MAX && (counter == current + 1 || has_counter(run, counter - 1))
    } by {
        lemma_run_is_consecutive(log, actor, after, limit, i);
        if run[i].dot.counter != current + 1 {
            lemma_run_is_consecutive(log, actor, after, limit, i - 1);
            assert(run[i - 1].dot.counter == run[i].dot.counter - 1);
        }
    }
    let less = observe_all(Map::empty(), run);
    let more = observe_all(known, run);
    lemma_observed_more(Map::empty(), known, run);
    assert forall|any: Seq<char>| #[trigger] less.contains_key(any) implies less[any]
        <= counter_of(more, any) by {
        assert(counter_of(less, any) <= counter_of(more, any));
    }
}

proof fn lemma_observed_more(
    less: Map<Seq<char>, u64>,
    more: Map<Seq<char>, u64>,
    operations: Seq<OperationView>,
)
    requires
        forall|actor: Seq<char>| #[trigger] counter_of(less, actor) <= counter_of(more, actor),
    ensures
        forall|actor: Seq<char>| #[trigger]
            counter_of(observe_all(less, operations), actor) <= counter_of(
                observe_all(more, operations),
                actor,
            ),
    decreases operations.len(),
{
    if operations.len() > 0 {
        lemma_observed_more(less, more, operations.drop_last());
        let below = observe_all(less, operations.drop_last());
        let above = observe_all(more, operations.drop_last());
        let dot = operations.last().dot;
        assert forall|actor: Seq<char>| #[trigger]
            counter_of(observe_all(less, operations), actor) <= counter_of(
                observe_all(more, operations),
                actor,
            ) by {
            assert(counter_of(below, actor) <= counter_of(above, actor));
            assert(counter_of(below, dot.actor) <= counter_of(above, dot.actor));
            assert(observe_all(less, operations) == observe(below, dot));
            assert(observe_all(more, operations) == observe(above, dot));
        }
    }
}

} // verus!
