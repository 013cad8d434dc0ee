//! What the notebook on this device looks like now: its rows as records, the chunks of its files,
//! and how much of it other devices have yet to see.

use vstd::prelude::*;
use vstd::string::*;

use crate::attachments::{manifest_field, manifest_value, name_in, path_in, InstalledFile};
use crate::files::{hex_of, sha256, total_size, verify_chunk, ChunkView, FileManifest};
use crate::ids::{hyphenated_uuid, is_uuid, new_uuid, uuid_text};
use crate::model::{
    counter_of, whole_field, EntityKind, FieldValue, FieldView, WholeNumber,
};
use crate::plain::{views, Plain};
use crate::projection::section_shadow;
use crate::store::{
    ChunkSource, LoggedView, PeerView, RecordView, Replica, ReplicaView, Shadow, ShadowView,
    SnapshotRecord, SourceView, StoreError,
};
use crate::text::text_eq;
use crate::textmap::TextMap;

verus! {

/// A section of the notebook.
#[derive(Debug, Clone, PartialEq, Eq)]
pub struct SectionSnapshot {
    pub sync_id: String,
    pub name: String,
    /// The bits of the section's sort index.
    pub sort_bits: u64,
}

/// An item of the notebook.
#[derive(Debug, Clone, PartialEq, Eq)]
pub struct ItemSnapshot {
    pub sync_id: String,
    pub section_id: Option<String>,
    pub content: String,
    pub done: i64,
    pub created_at: WholeNumber,
}

/// An attachment of the notebook, with the manifest of its file.
#[derive(Debug, Clone, PartialEq)]
pub struct AttachmentSnapshot {
    pub sync_id: String,
    pub item_id: String,
    pub name: String,
    pub media_type: String,
    pub size: WholeNumber,
    pub manifest: FileManifest,
}

/// The bits are those of a finite number: the exponent is not all ones.
pub open spec fn finite_bits(bits: u64) -> bool {
    (bits / 0x10_0000_0000_0000) % 0x800 != 0x7ff
}

/// The record of a section.
pub open spec fn section_record(section: SectionSnapshot) -> RecordView {
    RecordView {
        kind: EntityKind::Section,
        id: section.sync_id@,
        shadow: section_shadow(section.name@, section.sort_bits),
    }
}

/// The record of an item. Every number but zero says that it is done.
pub open spec fn item_record(item: ItemSnapshot) -> RecordView {
    RecordView {
        kind: EntityKind::Item,
        id: item.sync_id@,
        shadow: ShadowView {
            fields: Map::empty().insert(
                "sectionId"@,
                match item.section_id {
                    Some(section) => FieldView::Text(section@),
                    None => FieldView::Null,
                },
            ).insert("done"@, FieldView::Bool(item.done != 0)).insert(
                "createdAt"@,
                whole_field(item.created_at),
            ),
            content: Some(item.content@),
        },
    }
}

/// The record of an attachment.
pub open spec fn attachment_record(attachment: AttachmentSnapshot) -> RecordView {
    RecordView {
        kind: EntityKind::Attachment,
        id: attachment.sync_id@,
        shadow: ShadowView {
            fields: Map::empty().insert("itemId"@, FieldView::Text(attachment.item_id@)).insert(
                "name"@,
                FieldView::Text(attachment.name@),
            ).insert("mediaType"@, FieldView::Text(attachment.media_type@)).insert(
                "size"@,
                whole_field(attachment.size),
            ).insert("manifest"@, manifest_value(attachment.manifest@)),
            content: None,
        },
    }
}

/// The records of the notebook: the sections, the items, then the attachments.
pub open spec fn records_of(
    sections: Seq<SectionSnapshot>,
    items: Seq<ItemSnapshot>,
    attachments: Seq<AttachmentSnapshot>,
) -> Seq<RecordView> {
    sections.map_values(|section: SectionSnapshot| section_record(section)) + items.map_values(
        |item: ItemSnapshot| item_record(item),
    ) + attachments.map_values(|attachment: AttachmentSnapshot| attachment_record(attachment))
}

fn record_section(section: &SectionSnapshot) -> (record: SnapshotRecord)
    ensures
        record@ == section_record(*section),
{
    let mut fields: TextMap<FieldValue> = TextMap::new();
    fields.insert("name".to_owned(), FieldValue::Text(section.name.duplicate()));
    fields.insert("sortIndex".to_owned(), FieldValue::Fraction { bits: section.sort_bits });
    SnapshotRecord {
        kind: EntityKind::Section,
        sync_id: section.sync_id.duplicate(),
        shadow: Shadow { fields, content: None },
    }
}

fn record_item(item: &ItemSnapshot) -> (record: SnapshotRecord)
    ensures
        record@ == item_record(*item),
{
    let section = match &item.section_id {
        Some(section) => FieldValue::Text(section.duplicate()),
        None => FieldValue::Null,
    };
    let mut fields: TextMap<FieldValue> = TextMap::new();
    fields.insert("sectionId".to_owned(), section);
    fields.insert("done".to_owned(), FieldValue::Bool(item.done != 0));
    fields.insert("createdAt".to_owned(), item.created_at.field());
    SnapshotRecord {
        kind: EntityKind::Item,
        sync_id: item.sync_id.duplicate(),
        shadow: Shadow { fields, content: Some(item.content.duplicate()) },
    }
}

fn record_attachment(attachment: &AttachmentSnapshot) -> (record: SnapshotRecord)
    ensures
        record@ == attachment_record(*attachment),
{
    let mut fields: TextMap<FieldValue> = TextMap::new();
    fields.insert("itemId".to_owned(), FieldValue::Text(attachment.item_id.duplicate()));
    fields.insert("name".to_owned(), FieldValue::Text(attachment.name.duplicate()));
    fields.insert("mediaType".to_owned(), FieldValue::Text(attachment.media_type.duplicate()));
    fields.insert("size".to_owned(), attachment.size.field());
    fields.insert("manifest".to_owned(), manifest_field(&attachment.manifest));
    SnapshotRecord {
        kind: EntityKind::Attachment,
        sync_id: attachment.sync_id.duplicate(),
        shadow: Shadow { fields, content: None },
    }
}

/// The records of the notebook. A section without a finite sort index cannot be told of.
pub fn snapshot_records(
    sections: &[SectionSnapshot],
    items: &[ItemSnapshot],
    attachments: &[AttachmentSnapshot],
) -> (result: Result<Vec<SnapshotRecord>, StoreError>)
    ensures
        if forall|i: int|
            0 <= i < sections@.len() ==> finite_bits((#[trigger] sections@[i]).sort_bits) {
            result matches Ok(records) && views(records@) == records_of(
                sections@,
                items@,
                attachments@,
            )
        } else {
            result == Err::<Vec<SnapshotRecord>, StoreError>(StoreError::InvalidPayload)
        },
{
    let ghost told_sections = sections@.map_values(|section: SectionSnapshot|
        section_record(section));
    let ghost told_items = items@.map_values(|item: ItemSnapshot| item_record(item));
    let ghost told_attachments = attachments@.map_values(|attachment: AttachmentSnapshot|
        attachment_record(attachment));
    let mut records: Vec<SnapshotRecord> = Vec::new();
    let mut i: usize = 0;
    while i < sections.len()
        invariant
            i <= sections@.len(),
            told_sections == sections@.map_values(|section: SectionSnapshot|
                section_record(section)),
            views(records@) =~= told_sections.take(i as int),
            forall|j: int| 0 <= j < i ==> finite_bits((#[trigger] sections@[j]).sort_bits),
        decreases sections@.len() - i,
    {
        if (sections[i].sort_bits / 0x10_0000_0000_0000) % 0x800 == 0x7ff {
            assert(!finite_bits(sections@[i as int].sort_bits));
            return Err(StoreError::InvalidPayload);
        }
        let ghost before = records@;
        records.push(record_section(&sections[i]));
        proof {
            assert(views(records@) =~= views(before).push(told_sections[i as int]));
            assert(told_sections.take(i + 1) =~= told_sections.take(i as int).push(
                told_sections[i as int],
            ));
        }
        i = i + 1;
    }
    let mut i: usize = 0;
    while i < items.len()
        invariant
            i <= items@.len(),
            told_items == items@.map_values(|item: ItemSnapshot| item_record(item)),
            views(records@) =~= told_sections + told_items.take(i as int),
        decreases items@.len() - i,
    {
        let ghost before = records@;
        records.push(record_item(&items[i]));
        proof {
            assert(views(records@) =~= views(before).push(told_items[i as int]));
            assert(told_items.take(i + 1) =~= told_items.take(i as int).push(
                told_items[i as int],
            ));
        }
        i = i + 1;
    }
    let mut i: usize = 0;
    while i < attachments.len()
        invariant
            i <= attachments@.len(),
            told_attachments == attachments@.map_values(|attachment: AttachmentSnapshot|
                attachment_record(attachment)),
            views(records@) =~= told_sections + told_items + told_attachments.take(i as int),
        decreases attachments@.len() - i,
    {
        let ghost before = records@;
        records.push(record_attachment(&attachments[i]));
        proof {
            assert(views(records@) =~= views(before).push(told_attachments[i as int]));
            assert(told_attachments.take(i + 1) =~= told_attachments.take(i as int).push(
                told_attachments[i as int],
            ));
        }
        i = i + 1;
    }
    assert(told_attachments.take(i as int) =~= told_attachments);
    Ok(records)
}

/// A manifest that was made before, and of which file.
#[derive(Debug, Clone, PartialEq)]
pub struct CachedManifest {
    pub stored_path: String,
    pub size: i64,
    pub modified_at: i64,
    pub manifest: FileManifest,
}

/// The manifest that was made before, where it was made of this file as it is now.
pub fn cached_manifest<'a>(
    cached: Option<&'a CachedManifest>,
    path: &str,
    size: i64,
    modified_at: i64,
) -> (manifest: Option<&'a FileManifest>)
    ensures
        manifest == match cached {
            Some(made) => if made.stored_path@ == path@ && made.size == size && made.modified_at
                == modified_at {
                Some(&made.manifest)
            } else {
                None
            },
            None => None,
        },
{
    match cached {
        Some(made) => if text_eq(made.stored_path.as_str(), path) && made.size == size
            && made.modified_at == modified_at {
            Some(&made.manifest)
        } else {
            None
        },
        None => None,
    }
}

/// Where chunks are kept after those of a file were found in it, one behind the other. A chunk
/// that was kept elsewhere is now read from there.
pub open spec fn chunks_registered(
    kept: Map<Seq<char>, SourceView>,
    path: Seq<char>,
    chunks: Seq<ChunkView>,
) -> Map<Seq<char>, SourceView>
    decreases chunks.len(),
{
    if chunks.len() == 0 {
        kept
    } else {
        chunks_registered(kept, path, chunks.drop_last()).insert(
            chunks.last().sha256,
            SourceView {
                path,
                offset: total_size(chunks.drop_last()) as u64,
                size: chunks.last().size,
            },
        )
    }
}

proof fn lemma_total_grows(chunks: Seq<ChunkView>, n: int)
    requires
        0 <= n <= chunks.len(),
    ensures
        0 <= total_size(chunks.take(n)) <= total_size(chunks),
    decreases chunks.len(),
{
    if n < chunks.len() {
        assert(chunks.drop_last().take(n) =~= chunks.take(n));
        lemma_total_grows(chunks.drop_last(), n);
    } else {
        assert(chunks.take(n) =~= chunks);
        if n > 0 {
            assert(chunks.drop_last().take(n - 1) =~= chunks.drop_last());
            lemma_total_grows(chunks.drop_last(), n - 1);
        }
    }
}

/// Every chunk of a file is then kept, with its size.
pub proof fn lemma_registered_chunks_kept(
    kept: Map<Seq<char>, SourceView>,
    path: Seq<char>,
    chunks: Seq<ChunkView>,
)
    requires
        forall|i: int, j: int|
            0 <= i < chunks.len() && 0 <= j < chunks.len() && (#[trigger] chunks[i]).sha256 == (
            #[trigger] chunks[j]).sha256 ==> chunks[i].size == chunks[j].size,
    ensures
        crate::attachments::chunks_kept(chunks_registered(kept, path, chunks), chunks),
    decreases chunks.len(),
{
    if chunks.len() > 0 {
        let shorter = chunks.drop_last();
        assert forall|i: int, j: int|
            0 <= i < shorter.len() && 0 <= j < shorter.len() && (#[trigger] shorter[i]).sha256 == (
            #[trigger] shorter[j]).sha256 implies shorter[i].size == shorter[j].size by {
            assert(shorter[i] == chunks[i] && shorter[j] == chunks[j]);
        }
        lemma_registered_chunks_kept(kept, path, shorter);
        let all = chunks_registered(kept, path, chunks);
        assert forall|i: int| 0 <= i < chunks.len() implies all.contains_key(
            (#[trigger] chunks[i]).sha256,
        ) && all[chunks[i].sha256].size == chunks[i].size by {
            if i < shorter.len() {
                assert(shorter[i] == chunks[i]);
                assert(chunks[i].sha256 == chunks[chunks.len() - 1].sha256 ==> chunks[i].size
                    == chunks[chunks.len() - 1].size);
            }
        }
    }
}

/// An operation that some device has yet to see. Where no device has been seen at all, every
/// operation waits.
pub open spec fn waits(peers: Map<Seq<char>, PeerView>, entry: LoggedView) -> bool {
    ||| peers.dom() =~= Set::empty()
    ||| exists|peer: Seq<char>| #[trigger]
        peers.contains_key(peer) && counter_of(
            peers[peer].frontier,
            entry.operation.dot.actor,
        ) < entry.operation.dot.counter
}

/// The operations that some device has yet to see.
pub open spec fn waiting(state: ReplicaView) -> Seq<LoggedView> {
    state.log.filter(|entry: LoggedView| waits(state.peers, entry))
}

impl Replica {
    /// Notes where the chunks of a file are to be read from.
    pub fn register_chunks(&mut self, path: &str, manifest: &FileManifest)
        requires
            total_size(manifest@.chunks) <= i64::MAX,
        ensures
            final(self)@ == (ReplicaView {
                chunks: chunks_registered(old(self)@.chunks, path@, manifest@.chunks),
                ..old(self)@
            }),
    {
        let ghost before = self@;
        let ghost chunks = views(manifest.chunks@);
        let mut offset: u64 = 0;
        let mut i: usize = 0;
        assert(chunks.take(0) =~= Seq::empty());
        while i < manifest.chunks.len()
            invariant
                chunks == views(manifest.chunks@),
                total_size(chunks) <= i64::MAX,
                i <= manifest.chunks@.len(),
                offset == total_size(chunks.take(i as int)),
                self@ == (ReplicaView {
                    chunks: chunks_registered(before.chunks, path@, chunks.take(i as int)),
                    ..before
                }),
            decreases manifest.chunks@.len() - i,
        {
            let chunk = &manifest.chunks[i];
            proof {
                assert(chunks.take(i + 1).drop_last() =~= chunks.take(i as int));
                assert(chunks.take(i + 1).last() == chunk@);
                lemma_total_grows(chunks, i + 1);
            }
            self.chunks.insert(
                chunk.sha256.duplicate(),
                ChunkSource { path: path.to_owned(), offset, size: chunk.size },
            );
            offset = offset + chunk.size;
            i = i + 1;
        }
        assert(chunks.take(i as int) =~= chunks);
    }

    /// Where the bytes of a chunk are to be read from.
    pub fn chunk_source(&self, hash: &str) -> (source: Option<&ChunkSource>)
        ensures
            source is Some <==> self@.chunks.contains_key(hash@),
            source matches Some(found) ==> found@ == self@.chunks[hash@],
    {
        self.chunks.get(hash)
    }

    /// Takes in a chunk that was received, if it is what its address says, and hands back the file
    /// that is to be written for it.
    pub fn store_received_chunk(&mut self, chunks_dir: &str, hash: &str, bytes: &[u8]) -> (result:
        Result<InstalledFile, StoreError>)
        ensures
            if hex_of(sha256(bytes@)) == hash@ {
                &&& result matches Ok(file)
                &&& file.path@ == path_in(chunks_dir@, hash@)
                &&& file.bytes@ == bytes@
                &&& final(self)@ == (ReplicaView {
                    chunks: old(self)@.chunks.insert(
                        hash@,
                        SourceView { path: file.path@, offset: 0, size: bytes@.len() as u64 },
                    ),
                    ..old(self)@
                })
            } else {
                &&& result == Err::<InstalledFile, StoreError>(StoreError::InvalidPayload)
                &&& final(self)@ == old(self)@
            },
    {
        if !verify_chunk(hash, bytes) {
            return Err(StoreError::InvalidPayload);
        }
        let path = name_in(chunks_dir, hash);
        self.chunks.insert(
            hash.to_owned(),
            ChunkSource { path: path.duplicate(), offset: 0, size: bytes.len() as u64 },
        );
        let mut copy: Vec<u8> = Vec::new();
        copy.extend_from_slice(bytes);
        assert(copy@ =~= bytes@);
        Ok(InstalledFile { path, bytes: copy })
    }

    fn is_waiting(&self, at: usize) -> (result: bool)
        requires
            at < self.log@.len(),
        ensures
            result == waits(self@.peers, self@.log[at as int]),
    {
        let count: usize = self.peers.len();
        let ghost keys = self.peers.keys();
        let entry = &self.log[at];
        if count == 0 {
            assert(self@.peers.dom() =~= Set::empty()) by {
                assert forall|peer: Seq<char>| !self@.peers.dom().contains(peer) by {
                    if self.peers@.contains_key(peer) {
                        assert(keys.contains(peer));
                    }
                }
            }
            return true;
        }
        assert(self.peers@.contains_key(keys[0]));
        let mut i: usize = 0;
        while i < count
            invariant
                at < self.log@.len(),
                entry == self.log@[at as int],
                keys == self.peers.keys(),
                count == keys.len(),
                i <= count,
                forall|j: int|
                    0 <= j < i ==> counter_of(
                        self@.peers[#[trigger] keys[j]].frontier,
                        entry@.operation.dot.actor,
                    ) >= entry@.operation.dot.counter,
            decreases count - i,
        {
            let peer = self.peers.value_at(i);
            if peer.frontier.counter(entry.operation.dot.actor_id.as_str())
                < entry.operation.dot.counter {
                assert(self@.peers.contains_key(keys[i as int]));
                return true;
            }
            i = i + 1;
        }
        proof {
            if waits(self@.peers, self@.log[at as int]) {
                assert(self@.peers.dom().contains(keys[0]));
                let peer = choose|peer: Seq<char>| #[trigger]
                    self@.peers.contains_key(peer) && counter_of(
                        self@.peers[peer].frontier,
                        entry@.operation.dot.actor,
                    ) < entry@.operation.dot.counter;
                assert(keys.contains(peer));
                let j = keys.index_of(peer);
                assert(keys[j] == peer);
            }
        }
        false
    }

    /// How many operations some device has yet to see.
    pub fn pending_count(&self) -> (count: usize)
        ensures
            count == waiting(self@).len(),
    {
        let ghost unseen = |entry: LoggedView| waits(self@.peers, entry);
        let ghost log = self@.log;
        let mut count: usize = 0;
        let mut i: usize = 0;
        proof {
            reveal(Seq::filter);
            assert(log.take(0).filter(unseen) =~= Seq::empty());
        }
        while i < self.log.len()
            invariant
                log == self@.log,
                log.len() == self.log@.len(),
                unseen == (|entry: LoggedView| waits(self@.peers, entry)),
                i <= self.log@.len(),
                count == log.take(i as int).filter(unseen).len(),
                count <= i,
            decreases self.log@.len() - i,
        {
            proof {
                reveal(Seq::filter);
                assert(log.take(i + 1).drop_last() =~= log.take(i as int));
            }
            if self.is_waiting(i) {
                count = count + 1;
            }
            i = i + 1;
        }
        assert(log.take(i as int) =~= log);
        count
    }
}

/// A device that has told nobody of an operation, and has met nobody, has every operation waiting.
pub proof fn lemma_alone_everything_waits(state: ReplicaView)
    requires
        state.peers.dom() =~= Set::empty(),
    ensures
        waiting(state) == state.log,
{
    let unseen = |entry: LoggedView| waits(state.peers, entry);
    lemma_all_kept(state.log, unseen);
}

proof fn lemma_all_kept(log: Seq<LoggedView>, keep: spec_fn(LoggedView) -> bool)
    requires
        forall|i: int| 0 <= i < log.len() ==> keep(#[trigger] log[i]),
    ensures
        log.filter(keep) == log,
    decreases log.len(),
{
    reveal(Seq::filter);
    if log.len() > 0 {
        let shorter = log.drop_last();
        assert forall|i: int| 0 <= i < shorter.len() implies keep(#[trigger] shorter[i]) by {
            assert(shorter[i] == log[i]);
        }
        lemma_all_kept(shorter, keep);
        assert(keep(log[log.len() - 1]));
        assert(shorter.push(log.last()) =~= log);
    } else {
        assert(log.filter(keep) =~= log);
    }
}

/// The identity of this device: the one that was stored, where it is a UUID, else a new one, which
/// is then to be stored.
pub fn ensure_identity(stored: Option<&str>) -> (identity: (String, bool))
    ensures
        match stored {
            Some(actor) => uuid_text(actor@) ==> identity.0@ == actor@ && !identity.1,
            None => true,
        },
        !(stored matches Some(actor) && uuid_text(actor@)) ==> identity.1 && hyphenated_uuid(
            identity.0@,
        ),
{
    match stored {
        Some(actor) => if is_uuid(actor) {
            return (actor.to_owned(), false);
        },
        None => {},
    }
    (new_uuid(), true)
}

} // verus!
