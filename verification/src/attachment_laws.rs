//! An attachment travels: what one device attached is what another shows, with the same file.

use vstd::prelude::*;

use crate::attachments::{
    attachment_step, attachments_projected, chunks_kept, cleaned, extension, known_attachments,
    lies_in, manifest_value, plain_letter, same_path, stored_name, without_empty_end, Progress,
};
use crate::exchange::lemma_field_names;
use crate::files::{hex_of, joined, manifest_of, manifest_valid, sha256};
use crate::model::{EntityKind, EntityView, FieldView};
use crate::rows_laws::says;
use crate::snapshot::{attachment_record, AttachmentSnapshot};
use crate::store::{AttachmentView, ReplicaView};
use crate::telling_laws::tells;
use crate::text::{ascii_lowercase, lemma_last_place, lemma_last_place_behind};
use crate::textmap::{lemma_ordered_lists, ordered};

verus! {

/// The row of an attachment says what is known of the attachment: the note it hangs on, its name,
/// its type and its size.
pub open spec fn row_fits(row: AttachmentView, entity: EntityView) -> bool {
    &&& says(entity, "itemId"@, FieldView::Text(row.item))
    &&& says(entity, "name"@, FieldView::Text(row.name))
    &&& says(entity, "mediaType"@, FieldView::Text(row.media_type))
    &&& exists|bits: u64| #[trigger]
        says(entity, "size"@, FieldView::Natural { value: row.size, bits })
}

/// An attachment whose file is put together is shown as it is known: the row says what the winning
/// operations said, the file is the one that the row names, and its bytes are those of the chunks,
/// with the size and the digest that were told. A row that was there keeps the moment at which it was
/// made. A file is put together only for an attachment that was not deleted and hangs on a note that
/// is shown.
pub proof fn lemma_installed_row(
    progress: Progress,
    id: Seq<char>,
    entity: EntityView,
    directory: Seq<char>,
    files: Map<Seq<char>, u64>,
    contents: Map<Seq<char>, Seq<u8>>,
    now: i64,
)
    ensures
        attachment_step(progress, id, entity, directory, files, contents, now) matches Ok(after)
            ==> (after.installed.len() != progress.installed.len() ==> {
            let row = after.state.attachments[id];
            &&& entity.deleted_at is None
            &&& after.state.attachments.contains_key(id)
            &&& row_fits(row, entity)
            &&& progress.state.items.contains_key(row.item)
            &&& after.installed.len() == progress.installed.len() + 1
            &&& after.installed.last().path == row.stored_path
            &&& after.installed.last().bytes.len() == row.size
            &&& entity.metadata["manifest"@].value matches FieldView::Nested {
                encoded,
                manifest: Some(manifest),
            } && {
                &&& hex_of(sha256(after.installed.last().bytes)) == manifest.file_sha256
                &&& after.installed.last().bytes.len() == manifest.size
                &&& after.installed.last().bytes == joined(
                    manifest.chunks.map_values(
                        |chunk: crate::files::ChunkView| contents[chunk.sha256],
                    ),
                )
            }
            &&& progress.state.attachments.contains_key(id) ==> row.created_at
                == progress.state.attachments[id].created_at
            &&& !progress.state.attachments.contains_key(id) ==> row.created_at == now
        }),
{
    if let Ok(after) = attachment_step(progress, id, entity, directory, files, contents, now) {
        if after.installed.len() != progress.installed.len() {
            let row = after.state.attachments[id];
            let size = entity.metadata["size"@].value;
            match size {
                FieldView::Natural { value, bits } => {
                    assert(says(entity, "size"@, FieldView::Natural { value: row.size, bits }));
                },
                _ => {},
            }
            let manifest = entity.metadata["manifest"@].value.manifest()->0;
            assert(manifest.chunks.map_values(
                |chunk: crate::files::ChunkView| contents[chunk.sha256],
            ) =~= crate::attachments::chunk_pieces(manifest.chunks, contents));
        }
    }
}

/// What a device attached, as another shows it.
pub open spec fn shows_attachment(state: ReplicaView, attachment: AttachmentSnapshot) -> bool {
    let row = state.attachments[attachment.sync_id@];
    &&& state.attachments.contains_key(attachment.sync_id@)
    &&& row.item == attachment.item_id@
    &&& row.name == attachment.name@
    &&& row.media_type == attachment.media_type@
    &&& row.size == attachment.size.value
}

/// An attachment that was told of, whose note is shown, whose chunks are there and which is not
/// shown yet, is shown as it was attached: on its note, under its name, with its type, its size and
/// its bytes. What is then last told of it is what was told, so that there is nothing to tell back.
pub proof fn lemma_attachment_travels(
    progress: Progress,
    attachment: AttachmentSnapshot,
    directory: Seq<char>,
    files: Map<Seq<char>, u64>,
    contents: Map<Seq<char>, Seq<u8>>,
    now: i64,
    pieces: Seq<Seq<u8>>,
    chunk_size: int,
)
    requires
        attachment.size.value >= 0,
        attachment.manifest@.size == attachment.size.value,
        manifest_valid(attachment.manifest@),
        attachment.manifest@ == manifest_of(pieces, chunk_size),
        joined(pieces).len() <= u64::MAX,
        forall|i: int|
            0 <= i < pieces.len() ==> contents.contains_key(
                hex_of(sha256(#[trigger] pieces[i])),
            ) && contents[hex_of(sha256(pieces[i]))] == pieces[i],
        tells(
            progress.state,
            EntityKind::Attachment,
            attachment.sync_id@,
            attachment_record(attachment).shadow,
        ),
        progress.state.items.contains_key(attachment.item_id@),
        chunks_kept(progress.state.chunks, attachment.manifest@.chunks),
        !progress.state.attachments.contains_key(attachment.sync_id@),
    ensures
        ({
            let id = attachment.sync_id@;
            let entity = progress.state.entities[(EntityKind::Attachment, id)];
            &&& attachment_step(
                progress,
                id,
                entity,
                directory,
                files,
                contents,
                now,
            ) matches Ok(after)
            &&& shows_attachment(after.state, attachment)
            &&& after.installed.len() == progress.installed.len() + 1
            &&& after.installed.last().path == after.state.attachments[id].stored_path
            &&& after.installed.last().bytes == joined(pieces)
            &&& after.state.shadows.contains_key((EntityKind::Attachment, id))
            &&& forall|field: Seq<char>| #[trigger]
                attachment_record(attachment).shadow.fields.contains_key(field)
                    ==> after.state.shadows[(
                    EntityKind::Attachment,
                    id,
                )].fields.contains_key(field) && after.state.shadows[(
                    EntityKind::Attachment,
                    id,
                )].fields[field].equals(attachment_record(attachment).shadow.fields[field])
        }),
{
    lemma_field_names();
    let id = attachment.sync_id@;
    let entity = progress.state.entities[(EntityKind::Attachment, id)];
    let shadow = attachment_record(attachment).shadow;
    assert(shadow.fields.contains_key("itemId"@));
    assert(shadow.fields.contains_key("name"@));
    assert(shadow.fields.contains_key("mediaType"@));
    assert(shadow.fields.contains_key("size"@));
    assert(shadow.fields.contains_key("manifest"@));
    assert(entity.metadata["itemId"@].value == FieldView::Text(attachment.item_id@));
    assert(entity.metadata["name"@].value == FieldView::Text(attachment.name@));
    assert(entity.metadata["mediaType"@].value == FieldView::Text(attachment.media_type@));
    assert(entity.metadata["manifest"@].value == manifest_value(attachment.manifest@));
    crate::attachments::lemma_cut_file_comes_back(pieces, chunk_size, contents);
}

/// Whatever comes of one attachment, every other one stays as it is, and so do lists, notes and
/// chunks. Files that were put together or given up before stay so.
pub proof fn lemma_one_attachment_at_a_time(
    progress: Progress,
    id: Seq<char>,
    entity: EntityView,
    directory: Seq<char>,
    files: Map<Seq<char>, u64>,
    contents: Map<Seq<char>, Seq<u8>>,
    now: i64,
    other: Seq<char>,
)
    requires
        other != id,
    ensures
        attachment_step(progress, id, entity, directory, files, contents, now) matches Ok(after)
            ==> {
            &&& after.state.attachments.contains_key(other)
                == progress.state.attachments.contains_key(other)
            &&& progress.state.attachments.contains_key(other) ==> after.state.attachments[other]
                == progress.state.attachments[other]
            &&& after.state.items == progress.state.items
            &&& after.state.sections == progress.state.sections
            &&& after.state.chunks == progress.state.chunks
            &&& after.state.entities == progress.state.entities
            &&& progress.installed.is_prefix_of(after.installed)
            &&& progress.obsolete.is_prefix_of(after.obsolete)
        },
{
    if let Ok(after) = attachment_step(progress, id, entity, directory, files, contents, now) {
        assert(progress.installed =~= after.installed.take(progress.installed.len() as int));
        assert(progress.obsolete =~= after.obsolete.take(progress.obsolete.len() as int));
    }
}

/// A deleted attachment is not shown, and the file of its row is given up where it is one of the
/// workspace's own; a file anywhere else is left alone.
pub proof fn lemma_deleted_attachment_goes(
    progress: Progress,
    id: Seq<char>,
    entity: EntityView,
    directory: Seq<char>,
    files: Map<Seq<char>, u64>,
    contents: Map<Seq<char>, Seq<u8>>,
    now: i64,
)
    requires
        entity.deleted_at is Some,
    ensures
        attachment_step(progress, id, entity, directory, files, contents, now) matches Ok(after) && {
            &&& !after.state.attachments.contains_key(id)
            &&& after.installed == progress.installed
            &&& progress.state.attachments.contains_key(id) && crate::attachments::lies_in(
                progress.state.attachments[id].stored_path,
                directory,
            ) ==> after.obsolete == progress.obsolete.push(
                progress.state.attachments[id].stored_path,
            )
            &&& !(progress.state.attachments.contains_key(id) && crate::attachments::lies_in(
                progress.state.attachments[id].stored_path,
                directory,
            )) ==> after.obsolete == progress.obsolete
        },
{
}

proof fn lemma_all_attachments_travel(
    state: ReplicaView,
    ids: Seq<Seq<char>>,
    attachment: AttachmentSnapshot,
    directory: Seq<char>,
    files: Map<Seq<char>, u64>,
    contents: Map<Seq<char>, Seq<u8>>,
    now: i64,
    pieces: Seq<Seq<u8>>,
    chunk_size: int,
)
    requires
        ids.no_duplicates(),
        attachment.size.value >= 0,
        attachment.manifest@.size == attachment.size.value,
        manifest_valid(attachment.manifest@),
        attachment.manifest@ == manifest_of(pieces, chunk_size),
        joined(pieces).len() <= u64::MAX,
        forall|i: int|
            0 <= i < pieces.len() ==> contents.contains_key(
                hex_of(sha256(#[trigger] pieces[i])),
            ) && contents[hex_of(sha256(pieces[i]))] == pieces[i],
        tells(
            state,
            EntityKind::Attachment,
            attachment.sync_id@,
            attachment_record(attachment).shadow,
        ),
        state.items.contains_key(attachment.item_id@),
        chunks_kept(state.chunks, attachment.manifest@.chunks),
        !state.attachments.contains_key(attachment.sync_id@),
    ensures
        attachments_projected(state, ids, directory, files, contents, now) matches Ok(after) ==> {
            &&& after.state.entities == state.entities
            &&& after.state.items == state.items
            &&& after.state.chunks == state.chunks
            &&& !ids.contains(attachment.sync_id@) ==> !after.state.attachments.contains_key(
                attachment.sync_id@,
            )
            &&& ids.contains(attachment.sync_id@) ==> shows_attachment(after.state, attachment)
                && after.installed.contains(
                (crate::attachments::FileView {
                    path: after.state.attachments[attachment.sync_id@].stored_path,
                    bytes: joined(pieces),
                }),
            )
        },
    decreases ids.len(),
{
    let id = attachment.sync_id@;
    if ids.len() > 0 {
        let shorter = ids.drop_last();
        let last = ids.last();
        let n = ids.len() - 1;
        assert(ids[n] == last);
        assert(shorter.no_duplicates()) by {
            assert forall|i: int, j: int|
                0 <= i < shorter.len() && 0 <= j < shorter.len() && i != j implies shorter[i]
                != shorter[j] by {
                assert(ids[i] != ids[j]);
            }
        }
        lemma_all_attachments_travel(
            state,
            shorter,
            attachment,
            directory,
            files,
            contents,
            now,
            pieces,
            chunk_size,
        );
        if let Ok(progress) = attachments_projected(
            state,
            shorter,
            directory,
            files,
            contents,
            now,
        ) {
            let entity = state.entities[(EntityKind::Attachment, last)];
            if let Ok(after) = attachment_step(
                progress,
                last,
                entity,
                directory,
                files,
                contents,
                now,
            ) {
                if last == id {
                    assert(!shorter.contains(id)) by {
                        if shorter.contains(id) {
                            let k = shorter.index_of(id);
                            assert(ids[k] == ids[n]);
                        }
                    }
                    lemma_attachment_travels(
                        progress,
                        attachment,
                        directory,
                        files,
                        contents,
                        now,
                        pieces,
                        chunk_size,
                    );
                    assert(after.installed[after.installed.len() - 1]
                        == after.installed.last());
                } else {
                    lemma_one_attachment_at_a_time(
                        progress,
                        last,
                        entity,
                        directory,
                        files,
                        contents,
                        now,
                        id,
                    );
                    if shorter.contains(id) {
                        assert(ids[shorter.index_of(id)] == id);
                        let file = crate::attachments::FileView {
                            path: progress.state.attachments[id].stored_path,
                            bytes: joined(pieces),
                        };
                        let k = progress.installed.index_of(file);
                        assert(after.installed[k] == file);
                    } else if ids.contains(id) {
                        let k = ids.index_of(id);
                        assert(shorter[k] == id);
                    }
                }
            }
        }
    }
}

/// Once attachments are shown, one that was told of, whose note is shown, whose chunks are there and
/// which was not shown before, is shown as it was attached, and its whole file is to be written where
/// its row says.
pub proof fn lemma_attachments_travel(
    state: ReplicaView,
    attachment: AttachmentSnapshot,
    directory: Seq<char>,
    files: Map<Seq<char>, u64>,
    contents: Map<Seq<char>, Seq<u8>>,
    now: i64,
    pieces: Seq<Seq<u8>>,
    chunk_size: int,
)
    requires
        known_attachments(state).finite(),
        attachment.size.value >= 0,
        attachment.manifest@.size == attachment.size.value,
        manifest_valid(attachment.manifest@),
        attachment.manifest@ == manifest_of(pieces, chunk_size),
        joined(pieces).len() <= u64::MAX,
        forall|i: int|
            0 <= i < pieces.len() ==> contents.contains_key(
                hex_of(sha256(#[trigger] pieces[i])),
            ) && contents[hex_of(sha256(pieces[i]))] == pieces[i],
        tells(
            state,
            EntityKind::Attachment,
            attachment.sync_id@,
            attachment_record(attachment).shadow,
        ),
        state.items.contains_key(attachment.item_id@),
        chunks_kept(state.chunks, attachment.manifest@.chunks),
        !state.attachments.contains_key(attachment.sync_id@),
    ensures
        attachments_projected(
            state,
            ordered(known_attachments(state)),
            directory,
            files,
            contents,
            now,
        ) matches Ok(after) ==> {
            &&& shows_attachment(after.state, attachment)
            &&& after.installed.contains(
                (crate::attachments::FileView {
                    path: after.state.attachments[attachment.sync_id@].stored_path,
                    bytes: joined(pieces),
                }),
            )
        },
{
    let ids = ordered(known_attachments(state));
    lemma_ordered_lists(known_attachments(state));
    assert(ids.no_duplicates()) by {
        assert forall|i: int, j: int|
            0 <= i < ids.len() && 0 <= j < ids.len() && i != j implies ids[i] != ids[j] by {
            crate::text::lemma_text_order(ids[i], ids[i], ids[i]);
            if i < j {
                assert(crate::text::text_before(ids[i], ids[j]));
            } else {
                assert(crate::text::text_before(ids[j], ids[i]));
            }
        }
    }
    assert(known_attachments(state).contains(attachment.sync_id@));
    lemma_all_attachments_travel(
        state,
        ids,
        attachment,
        directory,
        files,
        contents,
        now,
        pieces,
        chunk_size,
    );
}

/// The file of an attachment is kept under the identifier of the attachment, with the extension of its
/// name in small letters.
pub proof fn lemma_extension_kept(id: Seq<char>, stem: Seq<char>, ending: Seq<char>)
    requires
        stem.len() > 0,
        !stem.contains('/'),
        0 < ending.len() <= 12,
        forall|i: int|
            0 <= i < ending.len() ==> ('a' <= #[trigger] ending[i] <= 'z') || ('A' <= ending[i]
                <= 'Z') || ('0' <= ending[i] <= '9'),
    ensures
        stored_name(id, stem + seq!['.'] + ending) == id + seq!['.'] + ascii_lowercase(ending),
{
    let name = stem + seq!['.'] + ending;
    let n = name.len() - 1;
    assert(name[n] == ending[ending.len() - 1]);
    assert(name.last() != '/' && name.last() != '.');
    assert(without_empty_end(name) == name);
    assert(!name.contains('/')) by {
        if name.contains('/') {
            let k = name.index_of('/');
            if k < stem.len() {
                assert(stem[k] == '/');
            } else if k > stem.len() {
                assert(ending[k - stem.len() - 1] == '/');
            }
        }
    }
    lemma_last_place(name, '/');
    assert(name.skip(0) =~= name);
    reveal_strlit(".");
    reveal_strlit("..");
    assert("."@[0] == '.');
    assert(".."@[1] == '.' && ".."@.len() == 2);
    assert(name != "."@);
    assert(name != ".."@);
    assert(!ending.contains('.')) by {
        if ending.contains('.') {
            assert(ending[ending.index_of('.')] == '.');
        }
    }
    lemma_last_place_behind(stem, '.', ending);
    assert(name.skip(stem.len() as int + 1) =~= ending);
    assert(extension(name) == Some(ending));
    let letter = |character: char| plain_letter(character);
    lemma_letters_stay(ending, letter);
    assert(cleaned(ending) =~= ascii_lowercase(ending));
}

proof fn lemma_letters_stay(text: Seq<char>, keep: spec_fn(char) -> bool)
    requires
        forall|i: int| 0 <= i < text.len() ==> keep(#[trigger] text[i]),
    ensures
        text.filter(keep) == text,
    decreases text.len(),
{
    reveal(Seq::filter);
    if text.len() > 0 {
        let front = text.drop_last();
        assert forall|i: int| 0 <= i < front.len() implies keep(#[trigger] front[i]) by {
            assert(front[i] == text[i]);
        }
        lemma_letters_stay(front, keep);
        assert(keep(text[text.len() - 1]));
        assert(front.push(text.last()) =~= text);
    } else {
        assert(text.filter(keep) =~= text);
    }
}

/// Where a file is put together anew under another name, the one that was there before is given up,
/// if it is one of the workspace's own.
pub proof fn lemma_replaced_file_goes(
    progress: Progress,
    id: Seq<char>,
    entity: EntityView,
    directory: Seq<char>,
    files: Map<Seq<char>, u64>,
    contents: Map<Seq<char>, Seq<u8>>,
    now: i64,
)
    requires
        progress.state.attachments.contains_key(id),
    ensures
        attachment_step(progress, id, entity, directory, files, contents, now) matches Ok(after)
            ==> (after.installed.len() != progress.installed.len() ==> {
            let before = progress.state.attachments[id].stored_path;
            let path = after.state.attachments[id].stored_path;
            &&& lies_in(before, directory) && !same_path(before, path) ==> after.obsolete
                == progress.obsolete.push(before)
            &&& same_path(before, path) || !lies_in(before, directory) ==> after.obsolete
                == progress.obsolete
        }),
{
}

} // verus!
