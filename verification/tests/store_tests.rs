use clippy_sync::attachments::{
    is_inside, is_same_path, manifest_field, name_in, path_components, stored_file_name, Content,
};
use clippy_sync::batches::{
    batch_aad, open_batch, open_stored_chunk, seal_batch, seal_stored_chunk,
};
use clippy_sync::cloud::CloudBatch;
use clippy_sync::crypto::{CryptoError, WorkspaceKey};
use clippy_sync::exchange::{validate_operation, MAX_REMOTE_OPS};
use clippy_sync::files::{manifest, FileManifest};
use clippy_sync::model::{
    Dot, EntityKind, FieldValue, Mutation, Operation, SyncPayload, VersionVector, WholeNumber,
    SYNC_SCHEMA_VERSION,
};
use clippy_sync::snapshot::{
    cached_manifest, ensure_identity, snapshot_records, AttachmentSnapshot, CachedManifest,
    ItemSnapshot, SectionSnapshot,
};
use clippy_sync::store::{AttachmentRow, ItemRow, Replica, StoreError};
use clippy_sync::textmap::TextMap;
use clippy_sync::transfer::{chunk_head, locate_chunk, missing_chunks, take_exchange};
use clippy_sync::origin::ApiError;
use uuid::Uuid;

const NOW: i64 = 1_786_276_800_000;

fn whole(value: i64) -> WholeNumber {
    WholeNumber { value, bits: (value as f64).to_bits() }
}

fn number(value: u64) -> FieldValue {
    FieldValue::Natural { value, bits: (value as f64).to_bits() }
}

fn vector(entries: &[(&str, u64)]) -> VersionVector {
    let mut counters = TextMap::new();
    for (actor, counter) in entries {
        counters.insert(actor.to_string(), *counter);
    }
    VersionVector(counters)
}

fn fresh() -> String {
    Uuid::new_v4().to_string()
}

fn payload(workspace: &str, frontier: VersionVector, operations: Vec<Operation>) -> SyncPayload {
    SyncPayload {
        schema_version: SYNC_SCHEMA_VERSION,
        workspace_id: workspace.into(),
        frontier,
        operations,
    }
}

fn exchange(
    replica: &mut Replica,
    peer: &str,
    incoming: &SyncPayload,
) -> Result<SyncPayload, StoreError> {
    let sizes = vec![200; incoming.operations.len()];
    replica.exchange(peer, incoming, &sizes, whole(NOW))
}

fn item(sync_id: &str, content: &str) -> ItemSnapshot {
    ItemSnapshot {
        sync_id: sync_id.into(),
        section_id: None,
        content: content.into(),
        done: 0,
        created_at: whole(NOW),
    }
}

fn row(content: &str) -> ItemRow {
    ItemRow {
        section: None,
        content: content.into(),
        done: false,
        created_at: 1,
        updated_at: 1,
    }
}

#[test]
fn scanner_emits_only_changes_and_remote_apply_is_idempotent() {
    let actor = fresh();
    let workspace = fresh();
    let mut replica = Replica::new(workspace.clone());
    let id = fresh();
    replica.items.insert(id.clone(), row("first"));
    let records = snapshot_records(&[], &[item(&id, "first")], &[]).unwrap();

    assert!(replica.scan_local(&actor, &records, NOW).unwrap() > 0);
    assert_eq!(replica.scan_local(&actor, &records, NOW).unwrap(), 0);
    let peer = fresh();
    let first = exchange(&mut replica, &peer, &payload(&workspace, vector(&[]), vec![])).unwrap();
    assert!(!first.operations.is_empty());
    let acknowledgement = payload(&workspace, first.frontier.clone(), vec![]);
    let second = exchange(&mut replica, &peer, &acknowledgement).unwrap();
    assert!(second.operations.is_empty());
    assert_eq!(replica.items.len(), 1);

    let mut other = Replica::new(workspace.clone());
    let sent = payload(&workspace, first.frontier.clone(), first.operations.clone());
    exchange(&mut other, &actor, &sent).unwrap();
    let once = other.clone();
    exchange(&mut other, &actor, &sent).unwrap();
    assert_eq!(other.items, once.items);
    assert_eq!(other.items.get(&id).unwrap().content, "first");
    assert_eq!(other.frontier, once.frontier);
    assert_eq!(other.log.len(), once.log.len());
}

#[test]
fn bounded_delta_frontier_requires_every_page() {
    let workspace = fresh();
    let local_actor = fresh();
    let peer_actor = fresh();
    let mut replica = Replica::new(workspace.clone());
    for _ in 0..(MAX_REMOTE_OPS + 1) {
        let operation = replica
            .next_operation(
                &local_actor,
                EntityKind::Item,
                &fresh(),
                Mutation::SetContent { context: vector(&[]), value: "page me".into() },
            )
            .unwrap();
        replica.insert_operation(&operation, NOW).unwrap();
    }

    let first =
        exchange(&mut replica, &peer_actor, &payload(&workspace, vector(&[]), vec![])).unwrap();
    assert_eq!(first.operations.len(), MAX_REMOTE_OPS);
    assert_eq!(first.frontier.0.get(&local_actor), Some(&(MAX_REMOTE_OPS as u64)));

    let second =
        exchange(&mut replica, &peer_actor, &payload(&workspace, first.frontier, vec![])).unwrap();
    assert_eq!(second.operations.len(), 1);
    assert_eq!(
        second.frontier.0.get(&local_actor),
        Some(&((MAX_REMOTE_OPS + 1) as u64))
    );
}

#[test]
fn swift_and_rust_share_the_canonical_wire_fixture() {
    let workspace = "11111111-1111-4111-8111-111111111111";
    let peer = "aaaaaaaa-aaaa-4aaa-8aaa-aaaaaaaaaaaa";
    let entity = "33333333-3333-4333-8333-333333333333";
    let operation = |counter, mutation| Operation {
        schema_version: SYNC_SCHEMA_VERSION,
        workspace_id: workspace.into(),
        entity_kind: EntityKind::Item,
        entity_id: entity.into(),
        dot: Dot { actor_id: peer.into(), counter },
        mutation,
    };
    let operations = vec![
        operation(
            1,
            Mutation::SetMetadata { field: "createdAt".into(), value: number(NOW as u64) },
        ),
        operation(
            2,
            Mutation::SetMetadata { field: "done".into(), value: FieldValue::Bool(true) },
        ),
        operation(
            3,
            Mutation::SetContent { context: vector(&[]), value: "From Rust".into() },
        ),
    ];
    for operation in &operations {
        validate_operation(operation, workspace, 200).unwrap();
    }
    let mut replica = Replica::new(workspace.into());
    exchange(&mut replica, peer, &payload(workspace, vector(&[(peer, 3)]), operations)).unwrap();
    let shown = replica.items.get(entity).unwrap();
    assert_eq!(
        (shown.content.as_str(), shown.done, shown.created_at),
        ("From Rust", true, 1_786_276_800_000)
    );
}

fn attachment_operations(
    workspace: &str,
    actor: &str,
    attachment: &str,
    parent: &str,
    cut: &FileManifest,
) -> Vec<Operation> {
    [
        ("itemId", FieldValue::Text(parent.into())),
        ("name", FieldValue::Text("note.txt".into())),
        ("mediaType", FieldValue::Text("text/plain".into())),
        ("size", number(cut.size)),
        ("manifest", manifest_field(cut)),
    ]
    .into_iter()
    .enumerate()
    .map(|(index, (field, value))| Operation {
        schema_version: SYNC_SCHEMA_VERSION,
        workspace_id: workspace.into(),
        entity_kind: EntityKind::Attachment,
        entity_id: attachment.into(),
        dot: Dot { actor_id: actor.into(), counter: index as u64 + 1 },
        mutation: Mutation::SetMetadata { field: field.into(), value },
    })
    .collect()
}

#[test]
fn verified_chunks_project_a_real_attachment_atomically() {
    let plaintext = b"chunked attachment";
    let reads: Vec<Vec<u8>> = plaintext.chunks(4).map(<[u8]>::to_vec).collect();
    let cut = manifest(&reads, 4).unwrap();
    let workspace = fresh();
    let actor = fresh();
    let parent = fresh();
    let attachment = fresh();
    let mut replica = Replica::new(workspace.clone());
    replica.items.insert(parent.clone(), row("parent"));
    let operations = attachment_operations(&workspace, &actor, &attachment, &parent, &cut);
    exchange(
        &mut replica,
        &actor,
        &payload(&workspace, vector(&[(&actor, 5)]), operations),
    )
    .unwrap();

    let mut contents = TextMap::new();
    let mut files = TextMap::new();
    let before = replica.project_ready_attachments("/data/attachments", &files, &contents, NOW);
    assert!(before.unwrap().installed.is_empty());
    assert!(replica.wanted_chunks("/data/attachments", &files).is_empty());
    for (descriptor, bytes) in cut.chunks.iter().zip(&reads) {
        let stored =
            replica.store_received_chunk("/data/chunks", &descriptor.sha256, bytes).unwrap();
        assert_eq!(stored.path, format!("/data/chunks/{}", descriptor.sha256));
        contents.insert(descriptor.sha256.clone(), Content(bytes.clone()));
    }
    let needed: Vec<String> = cut.chunks.iter().map(|chunk| chunk.sha256.clone()).collect();
    assert_eq!(replica.wanted_chunks("/data/attachments", &files), needed);
    let changes =
        replica.project_ready_attachments("/data/attachments", &files, &contents, NOW).unwrap();
    assert_eq!(changes.installed.len(), 1);
    let stored = replica.attachments.get(&attachment).unwrap().stored_path.clone();
    assert_eq!(stored, format!("/data/attachments/{attachment}.txt"));
    assert_eq!(changes.installed[0].path, stored);
    assert_eq!(changes.installed[0].bytes, plaintext);
    files.insert(stored, plaintext.len() as u64);
    let again =
        replica.project_ready_attachments("/data/attachments", &files, &contents, NOW).unwrap();
    assert!(again.installed.is_empty());
    assert!(again.obsolete.is_empty());
    assert!(replica.wanted_chunks("/data/attachments", &files).is_empty());
}

#[test]
fn rejects_actor_gaps_and_conflicting_dot_replays() {
    let workspace = fresh();
    let actor = fresh();
    let entity = fresh();
    let mut replica = Replica::new(workspace.clone());
    let operation = |counter, value: &str| Operation {
        schema_version: SYNC_SCHEMA_VERSION,
        workspace_id: workspace.clone(),
        entity_kind: EntityKind::Item,
        entity_id: entity.clone(),
        dot: Dot { actor_id: actor.clone(), counter },
        mutation: Mutation::SetContent { context: vector(&[]), value: value.into() },
    };
    let sent = |operation: Operation| {
        payload(&workspace, vector(&[(&actor, operation.dot.counter)]), vec![operation])
    };
    assert!(matches!(
        exchange(&mut replica, &actor, &sent(operation(2, "gap"))),
        Err(StoreError::InvalidPayload)
    ));
    exchange(&mut replica, &actor, &sent(operation(1, "original"))).unwrap();
    assert!(matches!(
        exchange(&mut replica, &actor, &sent(operation(1, "forged replay"))),
        Err(StoreError::InvalidPayload)
    ));
    assert_eq!(replica.items.get(&entity).unwrap().content, "original");
}

#[test]
fn changes_and_deletions_are_told_once() {
    let actor = fresh();
    let mut replica = Replica::new(fresh());
    let (kept, gone) = (fresh(), fresh());
    let section = SectionSnapshot {
        sync_id: fresh(),
        name: "Work".into(),
        sort_bits: 1.5_f64.to_bits(),
    };
    let records =
        snapshot_records(&[section.clone()], &[item(&kept, "a"), item(&gone, "b")], &[]).unwrap();
    assert_eq!(replica.scan_local(&actor, &records, NOW), Ok(10));
    let records = snapshot_records(&[section], &[item(&kept, "changed")], &[]).unwrap();
    assert_eq!(replica.scan_local(&actor, &records, NOW + 1), Ok(2));
    assert_eq!(replica.scan_local(&actor, &records, NOW + 2), Ok(0));
    assert_eq!(replica.pending_count(), 12);
    assert!(replica.entities.items.get(&gone).unwrap().is_deleted());
}

#[test]
fn a_place_that_is_no_number_is_refused() {
    let section = SectionSnapshot {
        sync_id: fresh(),
        name: "Work".into(),
        sort_bits: f64::INFINITY.to_bits(),
    };
    assert_eq!(snapshot_records(&[section], &[], &[]), Err(StoreError::InvalidPayload));
}

#[test]
fn concurrent_edits_of_two_devices_are_both_kept() {
    let workspace = fresh();
    let (mac, phone, entity) = (fresh(), fresh(), fresh());
    let mut replica = Replica::new(workspace.clone());
    for (actor, value) in [(&mac, "from mac"), (&phone, "from phone")] {
        let operation = Operation {
            schema_version: SYNC_SCHEMA_VERSION,
            workspace_id: workspace.clone(),
            entity_kind: EntityKind::Item,
            entity_id: entity.clone(),
            dot: Dot { actor_id: actor.clone(), counter: 1 },
            mutation: Mutation::SetContent { context: vector(&[]), value: value.into() },
        };
        let sent = payload(&workspace, vector(&[(actor, 1)]), vec![operation]);
        exchange(&mut replica, actor, &sent).unwrap();
    }
    assert!(replica.entities.items.get(&entity).unwrap().content.has_conflict());
    assert_eq!(replica.conflicts.len(), 1);
}

#[test]
fn copies_that_know_the_same_agree_whatever_came_first() {
    let workspace = fresh();
    let (mac, phone, entity) = (fresh(), fresh(), fresh());
    let edit = |actor: &String, counter, context, value: &str| Operation {
        schema_version: SYNC_SCHEMA_VERSION,
        workspace_id: workspace.clone(),
        entity_kind: EntityKind::Item,
        entity_id: entity.clone(),
        dot: Dot { actor_id: actor.clone(), counter },
        mutation: Mutation::SetContent { context, value: value.into() },
    };
    let from_mac = payload(
        &workspace,
        vector(&[(&mac, 2)]),
        vec![
            edit(&mac, 1, vector(&[]), "draft"),
            edit(&mac, 2, vector(&[(&mac, 1)]), "from mac"),
        ],
    );
    let from_phone = payload(
        &workspace,
        vector(&[(&phone, 1)]),
        vec![edit(&phone, 1, vector(&[]), "from phone")],
    );
    let mut first = Replica::new(workspace.clone());
    exchange(&mut first, &mac, &from_mac).unwrap();
    exchange(&mut first, &phone, &from_phone).unwrap();
    let mut second = Replica::new(workspace.clone());
    exchange(&mut second, &phone, &from_phone).unwrap();
    exchange(&mut second, &mac, &from_mac).unwrap();
    assert_eq!(first.frontier, second.frontier);
    let known = first.entities.items.get(&entity).unwrap();
    assert_eq!(known, second.entities.items.get(&entity).unwrap());
    assert!(known.content.has_conflict());
}

#[test]
fn an_exchange_takes_only_what_the_device_itself_did() {
    let workspace = fresh();
    let (device, other) = (fresh(), fresh());
    let mut replica = Replica::new(workspace.clone());
    let operation = Operation {
        schema_version: SYNC_SCHEMA_VERSION,
        workspace_id: workspace.clone(),
        entity_kind: EntityKind::Item,
        entity_id: fresh(),
        dot: Dot { actor_id: other.clone(), counter: 1 },
        mutation: Mutation::Delete,
    };
    let sent = payload(&workspace, vector(&[(&other, 1)]), vec![operation]);
    let taken = take_exchange(
        &mut replica,
        &device,
        &sent,
        &[100],
        "/data",
        &TextMap::new(),
        &TextMap::new(),
        whole(NOW),
    );
    assert_eq!(taken.err(), Some(ApiError::InvalidRequest));
    assert_eq!(replica.log.len(), 0);
}

#[test]
fn chunks_are_found_by_their_hashes() {
    let mut replica = Replica::new(fresh());
    let stored = replica
        .store_received_chunk(
            "/c",
            "ba7816bf8f01cfea414140de5dae2223b00361a396177a9cb410ff61f20015ad",
            b"abc",
        )
        .unwrap();
    assert_eq!(stored.bytes, b"abc");
    let known = "ba7816bf8f01cfea414140de5dae2223b00361a396177a9cb410ff61f20015ad".to_string();
    assert_eq!(stored.path, format!("/c/{known}"));
    let again = replica.store_received_chunk("/c/", &known, b"abc").unwrap();
    assert_eq!(again.path, format!("/c/{known}"));
    let unknown = "0".repeat(64);
    assert_eq!(chunk_head(&replica, &known), Ok(true));
    assert_eq!(chunk_head(&replica, &unknown), Ok(false));
    assert_eq!(chunk_head(&replica, "zz"), Err(ApiError::InvalidRequest));
    assert_eq!(locate_chunk(&replica, &known).unwrap().size, 3);
    assert_eq!(locate_chunk(&replica, &unknown).err(), Some(ApiError::NotFound));
    assert_eq!(missing_chunks(&replica, &[known, unknown.clone()]), Ok(vec![unknown]));
    assert_eq!(
        replica.store_received_chunk("/c", &"0".repeat(64), b"abc"),
        Err(StoreError::InvalidPayload)
    );
}

#[test]
fn a_manifest_is_remembered_while_the_file_stays() {
    let cut = manifest(&[b"abc".to_vec()], 4).unwrap();
    let cached = CachedManifest {
        stored_path: "/a".into(),
        size: 3,
        modified_at: 7,
        manifest: cut.clone(),
    };
    assert_eq!(cached_manifest(Some(&cached), "/a", 3, 7), Some(&cut));
    assert_eq!(cached_manifest(Some(&cached), "/a", 3, 8), None);
    assert_eq!(cached_manifest(Some(&cached), "/b", 3, 7), None);
    assert_eq!(cached_manifest(None, "/a", 3, 7), None);
    let mut replica = Replica::new(fresh());
    replica.register_chunks("/a", &cut);
    assert_eq!(replica.chunk_source(&cut.chunks[0].sha256).unwrap().path, "/a");
    let snapshot = AttachmentSnapshot {
        sync_id: fresh(),
        item_id: fresh(),
        name: "a".into(),
        media_type: "text/plain".into(),
        size: whole(3),
        manifest: cut,
    };
    assert_eq!(snapshot_records(&[], &[], &[snapshot]).unwrap().len(), 1);
}

#[test]
fn a_device_keeps_its_identity() {
    let (made, new) = ensure_identity(None);
    assert!(new);
    assert_eq!(made.len(), 36);
    assert_eq!(ensure_identity(Some(&made)), (made.clone(), false));
}

fn noted(workspace: &str, actor: &str, notes: &[(&str, &str)]) -> Replica {
    let mut replica = Replica::new(workspace.into());
    let items: Vec<ItemSnapshot> = notes.iter().map(|(id, text)| item(id, text)).collect();
    let records = snapshot_records(&[], &items, &[]).unwrap();
    replica.scan_local(actor, &records, NOW).unwrap();
    replica
}

#[test]
fn batches_follow_one_another_without_a_gap() {
    let (workspace, actor) = (fresh(), fresh());
    let (first, second) = (fresh(), fresh());
    let replica = noted(&workspace, &actor, &[(&first, "one"), (&second, "two")]);
    let whole_run = replica.cloud_outbound_payload(&actor, 0, 100);
    let total = whole_run.operations.len();
    assert!(total > 4);
    assert_eq!(whole_run.frontier, vector(&[(&actor, total as u64)]));
    let front = replica.cloud_outbound_payload(&actor, 0, 3);
    let rest = replica.cloud_outbound_payload(&actor, 3, 100);
    let counters: Vec<u64> = front.operations.iter().map(|made| made.dot.counter).collect();
    assert_eq!(counters, [1, 2, 3]);
    assert_eq!([front.operations, rest.operations].concat(), whole_run.operations);
    assert!(replica.cloud_outbound_payload(&actor, total as u64, 100).operations.is_empty());
    assert!(replica.cloud_outbound_payload(&fresh(), 0, 100).operations.is_empty());
    assert!(replica.cloud_outbound_payload(&actor, u64::MAX, 100).operations.is_empty());
}

#[test]
fn a_batch_is_taken_in_once_under_its_own_counters() {
    let (workspace, actor, note) = (fresh(), fresh(), fresh());
    let sender = noted(&workspace, &actor, &[(&note, "hello")]);
    let batch = sender.cloud_outbound_payload(&actor, 0, 100);
    let sizes = vec![200; batch.operations.len()];
    let last = batch.operations.len() as u64;
    let mut receiver = Replica::new(workspace);
    assert_eq!(
        receiver.apply_cloud_batch(&actor, 2, last, batch.clone(), &sizes, whole(NOW)),
        Err(StoreError::InvalidPayload)
    );
    assert_eq!(
        receiver.apply_cloud_batch(&actor, 1, last + 1, batch.clone(), &sizes, whole(NOW)),
        Err(StoreError::InvalidPayload)
    );
    assert_eq!(
        receiver.apply_cloud_batch(&fresh(), 1, last, batch.clone(), &sizes, whole(NOW)),
        Err(StoreError::InvalidPayload)
    );
    assert_eq!(
        receiver.apply_cloud_batch(&actor, 1, last, batch.clone(), &sizes, whole(NOW)),
        Ok(last)
    );
    assert_eq!(receiver.items.get(&note).unwrap().content, "hello");
    assert_eq!(receiver.apply_cloud_batch(&actor, 1, last, batch, &sizes, whole(NOW)), Ok(0));
    let empty = sender.cloud_outbound_payload(&actor, last, 100);
    assert_eq!(
        receiver.apply_cloud_batch(&actor, 0, 0, empty, &[], whole(NOW)),
        Err(StoreError::InvalidPayload)
    );
}

#[test]
fn a_batch_opens_only_as_what_it_was_sealed() {
    let key = WorkspaceKey::from_bytes([7; 32]);
    let batch = seal_batch(&key, "w", "a", 3, 9, b"operations").unwrap();
    assert_eq!((batch.actor_id.as_str(), batch.first_counter, batch.last_counter), ("a", 3, 9));
    assert_eq!(open_batch(&key, "w", &batch), Ok(b"operations".to_vec()));
    assert_eq!(open_batch(&key, "v", &batch), Err(CryptoError::AuthenticationFailed));
    let moved = CloudBatch { first_counter: 4, ..batch.clone() };
    assert_eq!(open_batch(&key, "w", &moved), Err(CryptoError::AuthenticationFailed));
    let other = CloudBatch { actor_id: "b".into(), ..batch };
    assert_eq!(open_batch(&key, "w", &other), Err(CryptoError::AuthenticationFailed));
    let chunk = seal_stored_chunk(&key, "w", "h", b"bytes").unwrap();
    assert_eq!(open_stored_chunk(&key, "w", "h", &chunk), Ok(b"bytes".to_vec()));
    assert_eq!(
        open_stored_chunk(&key, "w", "g", &chunk),
        Err(CryptoError::AuthenticationFailed)
    );
    assert_ne!(batch_aad("w", "a", 1, 23), batch_aad("w", "a", 12, 3));
    assert_eq!(
        batch_aad("w", "a", 3, 9),
        [
            b"\0\0\0\x11clippy-sync-batch".as_slice(),
            b"\0\0\0\x011",
            b"\0\0\0\x01w",
            b"\0\0\0\x01a",
            b"\0\0\0\x013",
            b"\0\0\0\x019"
        ]
        .concat()
    );
}

#[test]
fn chunks_to_send_and_to_fetch_are_listed_once() {
    let reads: Vec<Vec<u8>> = b"aabbaacc".chunks(2).map(<[u8]>::to_vec).collect();
    let cut = manifest(&reads, 2).unwrap();
    let (workspace, actor, parent, attachment) = (fresh(), fresh(), fresh(), fresh());
    let mut replica = Replica::new(workspace.clone());
    let operations = attachment_operations(&workspace, &actor, &attachment, &parent, &cut);
    exchange(
        &mut replica,
        &actor,
        &payload(&workspace, vector(&[(&actor, 5)]), operations),
    )
    .unwrap();
    let mut all: Vec<String> = cut.chunks.iter().map(|chunk| chunk.sha256.clone()).collect();
    all.sort();
    all.dedup();
    assert_eq!(all.len(), 3);
    assert_eq!(replica.pending_upload_chunk_hashes(&actor, 0), all);
    assert_eq!(replica.pending_upload_chunk_hashes(&actor, 4), all);
    assert!(replica.pending_upload_chunk_hashes(&actor, 5).is_empty());
    assert!(replica.pending_upload_chunk_hashes(&parent, 0).is_empty());
    assert_eq!(replica.missing_chunk_hashes(), all);
    let first = &cut.chunks[0].sha256;
    replica.store_received_chunk("/data/chunks", first, b"aa").unwrap();
    all.retain(|hash| hash != first);
    assert_eq!(replica.missing_chunk_hashes(), all);
    let removal = Operation {
        schema_version: SYNC_SCHEMA_VERSION,
        workspace_id: workspace.clone(),
        entity_kind: EntityKind::Attachment,
        entity_id: attachment,
        dot: Dot { actor_id: actor.clone(), counter: 6 },
        mutation: Mutation::Delete,
    };
    exchange(&mut replica, &actor, &payload(&workspace, vector(&[]), vec![removal])).unwrap();
    assert!(replica.missing_chunk_hashes().is_empty());
}

#[test]
fn items_of_a_deleted_section_stay_without_one() {
    let workspace = fresh();
    let actor = fresh();
    let section = fresh();
    let (inside, outside) = (fresh(), fresh());
    let mut replica = Replica::new(workspace.clone());
    replica.items.insert(inside.clone(), ItemRow { section: Some(section.clone()), ..row("a") });
    replica.items.insert(outside.clone(), ItemRow { section: Some(fresh()), ..row("b") });
    let kept = replica.items.get(&outside).unwrap().section.clone();
    let operation = |counter, mutation| Operation {
        schema_version: SYNC_SCHEMA_VERSION,
        workspace_id: workspace.clone(),
        entity_kind: EntityKind::Section,
        entity_id: section.clone(),
        dot: Dot { actor_id: actor.clone(), counter },
        mutation,
    };
    let named = Mutation::SetMetadata {
        field: "name".into(),
        value: FieldValue::Text("Work".into()),
    };
    exchange(
        &mut replica,
        &actor,
        &payload(&workspace, vector(&[(&actor, 1)]), vec![operation(1, named)]),
    )
    .unwrap();
    assert!(replica.sections.get(&section).is_some());
    assert_eq!(replica.items.get(&inside).unwrap().section, Some(section.clone()));
    exchange(
        &mut replica,
        &actor,
        &payload(&workspace, vector(&[(&actor, 2)]), vec![operation(2, Mutation::Delete)]),
    )
    .unwrap();
    assert!(replica.sections.get(&section).is_none());
    assert_eq!(replica.items.get(&inside).unwrap().section, None);
    assert_eq!(replica.items.get(&inside).unwrap().content, "a");
    assert_eq!(replica.items.get(&outside).unwrap().section, kept);
}

#[test]
fn paths_are_held_against_each_other_by_their_components() {
    assert!(is_same_path("/a/b", "/a//b/"));
    assert!(is_same_path("/a/b", "/a/./b/."));
    assert!(is_same_path("./a", "./a/"));
    assert!(!is_same_path("./a", "a"));
    assert!(!is_same_path("/a", "a"));
    assert!(!is_same_path("/a/../b", "/b"));
    assert!(is_inside("/a/b", "/a/"));
    assert!(is_inside("/a", "/a"));
    assert!(!is_inside("/ab/c", "/a"));
    assert!(!is_inside("/a", "/a/b"));
    assert_eq!(path_components("//a/./b/"), ["/", "a", "b"]);
    assert_eq!(path_components(""), Vec::<String>::new());
    assert_eq!(name_in("/a", "b"), "/a/b");
    assert_eq!(name_in("/", "b"), "/b");
    assert_eq!(name_in("", "b"), "b");

    let bytes = b"whole".to_vec();
    let cut = manifest(&[bytes.clone()], 8).unwrap();
    let (workspace, actor, parent, attachment) = (fresh(), fresh(), fresh(), fresh());
    let mut replica = Replica::new(workspace.clone());
    replica.items.insert(parent.clone(), row("parent"));
    let operations = attachment_operations(&workspace, &actor, &attachment, &parent, &cut);
    exchange(&mut replica, &actor, &payload(&workspace, vector(&[(&actor, 5)]), operations))
        .unwrap();
    replica.store_received_chunk("/data/chunks", &cut.chunks[0].sha256, &bytes).unwrap();
    let mut contents = TextMap::new();
    contents.insert(cut.chunks[0].sha256.clone(), Content(bytes));
    let mut files = TextMap::new();
    let first =
        replica.project_ready_attachments("/data//kept", &files, &contents, NOW).unwrap();
    let stored = first.installed[0].path.clone();
    assert_eq!(stored, format!("/data//kept/{attachment}.txt"));
    files.insert(stored.clone(), 5);
    let again = replica.project_ready_attachments("/data/kept", &files, &contents, NOW).unwrap();
    assert!(again.installed.is_empty() && again.obsolete.is_empty());
    let emptied =
        replica.project_ready_attachments("/data/kept", &TextMap::new(), &contents, NOW).unwrap();
    assert_eq!(emptied.installed.len(), 1);
    assert!(emptied.obsolete.is_empty());
    let elsewhere =
        replica.project_ready_attachments("/other", &files, &contents, NOW).unwrap();
    assert_eq!(elsewhere.installed.len(), 1);
    assert!(elsewhere.obsolete.is_empty());
}

#[test]
fn the_two_zeros_are_one_place() {
    let actor = fresh();
    let mut replica = Replica::new(fresh());
    let section = |place: f64| {
        [SectionSnapshot {
            sync_id: "11111111-1111-4111-8111-111111111111".into(),
            name: "Work".into(),
            sort_bits: place.to_bits(),
        }]
    };
    let records = snapshot_records(&section(-0.0), &[], &[]).unwrap();
    assert_eq!(replica.scan_local(&actor, &records, NOW), Ok(2));
    let records = snapshot_records(&section(0.0), &[], &[]).unwrap();
    assert_eq!(replica.scan_local(&actor, &records, NOW), Ok(0));
    let records = snapshot_records(&section(0.5), &[], &[]).unwrap();
    assert_eq!(replica.scan_local(&actor, &records, NOW), Ok(1));
    let zero = FieldValue::Fraction { bits: 0 };
    assert!(zero.is_equal(&FieldValue::Fraction { bits: (-0.0_f64).to_bits() }));
    assert!(!zero.is_equal(&number(0)));
    assert!(!zero.is_equal(&FieldValue::Fraction { bits: 1 }));
}

#[test]
fn attachments_go_with_their_item() {
    let (workspace, actor) = (fresh(), fresh());
    let (gone, kept) = (fresh(), fresh());
    let mut replica = Replica::new(workspace.clone());
    for id in [&gone, &kept] {
        replica.items.insert(id.clone(), row("a"));
        replica.attachments.insert(
            fresh(),
            AttachmentRow {
                item: id.clone(),
                name: "a.txt".into(),
                stored_path: "/data/a".into(),
                media_type: "text/plain".into(),
                size: 1,
                created_at: 1,
            },
        );
    }
    let deletion = Operation {
        schema_version: SYNC_SCHEMA_VERSION,
        workspace_id: workspace.clone(),
        entity_kind: EntityKind::Item,
        entity_id: gone.clone(),
        dot: Dot { actor_id: actor.clone(), counter: 1 },
        mutation: Mutation::Delete,
    };
    exchange(
        &mut replica,
        &actor,
        &payload(&workspace, vector(&[(&actor, 1)]), vec![deletion]),
    )
    .unwrap();
    assert!(replica.items.get(&gone).is_none());
    assert_eq!(replica.attachments.len(), 1);
    assert_eq!(replica.attachments.value_at(0).item, kept);
}

#[test]
fn a_name_is_never_a_destination() {
    let id = "11111111-1111-4111-8111-111111111111";
    for name in ["../../etc/passwd", "/bin/sh", "a/../b.sh", "..", "x.t/../y", "n.P*N/G"] {
        let target = name_in("/data/kept", &stored_file_name(id, name));
        let mut parts = path_components(&target);
        assert!(parts.pop().unwrap().starts_with(id));
        assert_eq!(parts, path_components("/data/kept"));
    }
    assert_eq!(stored_file_name(id, "a/b.SH"), format!("{id}.sh"));
}
