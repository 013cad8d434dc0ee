//! What a device has taken in and shows, it does not tell again: looking at its own rows, it finds
//! nothing that differs from what was told.

use vstd::prelude::*;

use crate::attachments::{attachment_step, Progress};
use crate::attachment_laws::{lemma_installed_row, row_fits};
use crate::exchange::lemma_field_names;
use crate::model::{EntityKind, EntityView, FieldView, WholeNumber};
use crate::projection::{item_shown, section_placed};
use crate::rows_laws::says;
use crate::scan::{changed_fields, diff_count, field_changed, lemma_filter_members};
use crate::snapshot::{
    attachment_record, item_record, section_record, AttachmentSnapshot, ItemSnapshot,
    SectionSnapshot,
};
use crate::store::{ReplicaView, ShadowView};
use crate::textmap::{lemma_ordered_lists, ordered};

verus! {

/// A note of the notebook is the one that a row shows.
pub open spec fn is_row_of_item(state: ReplicaView, id: Seq<char>, item: ItemSnapshot) -> bool {
    let row = state.items[id];
    &&& item.sync_id@ == id
    &&& item.content@ == row.content
    &&& (item.done != 0) == row.done
    &&& item.created_at.value == row.created_at
    &&& match item.section_id {
        Some(list) => row.section == Some(list@),
        None => row.section is None,
    }
}

/// A list of the notebook is the one that a row shows.
pub open spec fn is_row_of_section(
    state: ReplicaView,
    id: Seq<char>,
    section: SectionSnapshot,
) -> bool {
    section.sync_id@ == id && section.name@ == state.sections[id].name && section.sort_bits
        == state.sections[id].sort_bits
}

/// An attachment of the notebook is the one that a row shows.
pub open spec fn is_row_of_attachment(
    state: ReplicaView,
    id: Seq<char>,
    attachment: AttachmentSnapshot,
) -> bool {
    let row = state.attachments[id];
    &&& attachment.sync_id@ == id
    &&& attachment.item_id@ == row.item
    &&& attachment.name@ == row.name
    &&& attachment.media_type@ == row.media_type
    &&& attachment.size.value == row.size
}

proof fn lemma_nothing_differs(previous: ShadowView, current: ShadowView)
    requires
        current.fields.dom().finite(),
        forall|field: Seq<char>| #[trigger]
            current.fields.contains_key(field) ==> previous.fields.contains_key(field)
                && previous.fields[field].equals(current.fields[field]),
        current.content == previous.content,
    ensures
        diff_count(Some(previous), current) == 0,
{
    let fields = changed_fields(Some(previous), current);
    let keys = ordered(current.fields.dom());
    let changed = |field: Seq<char>| field_changed(Some(previous), current, field);
    lemma_ordered_lists(current.fields.dom());
    lemma_filter_members(keys, changed);
    assert(fields == keys.filter(changed));
    if fields.len() > 0 {
        assert(fields.contains(fields[0]));
        assert(keys.contains(fields[0]));
        assert(changed(fields[0]));
        assert(current.fields.contains_key(fields[0]));
    }
}

/// A note that was just shown, on a list that is shown or on none, is not told again.
pub proof fn lemma_shown_item_not_told_again(
    state: ReplicaView,
    id: Seq<char>,
    entity: EntityView,
    now: WholeNumber,
    item: ItemSnapshot,
)
    requires
        entity.deleted_at is None,
        entity.content.len() > 0,
        !state.items.contains_key(id),
        forall|list: Seq<char>| #[trigger]
            says(entity, "sectionId"@, FieldView::Text(list)) ==> state.sections.contains_key(list),
        entity.metadata.contains_key("createdAt"@) ==> match entity.metadata["createdAt"@].value {
            FieldView::Negative { value, bits } => value < 0,
            _ => true,
        },
        is_row_of_item(item_shown(state, id, entity, now), id, item),
    ensures
        ({
            let after = item_shown(state, id, entity, now);
            after.shadows.contains_key((EntityKind::Item, id)) && diff_count(
                Some(after.shadows[(EntityKind::Item, id)]),
                item_record(item).shadow,
            ) == 0
        }),
{
    lemma_field_names();
    let after = item_shown(state, id, entity, now);
    let previous = after.shadows[(EntityKind::Item, id)];
    let current = item_record(item).shadow;
    if entity.metadata.contains_key("sectionId"@) {
        if let FieldView::Text(list) = entity.metadata["sectionId"@].value {
            assert(says(entity, "sectionId"@, FieldView::Text(list)));
        }
    }
    assert(previous.fields.contains_key("sectionId"@));
    assert(previous.fields.contains_key("done"@));
    assert(previous.fields.contains_key("createdAt"@));
    assert(previous.fields["sectionId"@].equals(current.fields["sectionId"@]));
    assert(previous.fields["done"@].equals(current.fields["done"@]));
    assert(previous.fields["createdAt"@].equals(current.fields["createdAt"@]));
    lemma_nothing_differs(previous, current);
}

/// A list that was just shown is not told again.
pub proof fn lemma_shown_section_not_told_again(
    state: ReplicaView,
    id: Seq<char>,
    name: Seq<char>,
    bits: u64,
    now: WholeNumber,
    section: SectionSnapshot,
)
    requires
        is_row_of_section(section_placed(state, id, name, bits, now), id, section),
    ensures
        ({
            let after = section_placed(state, id, name, bits, now);
            after.shadows.contains_key((EntityKind::Section, id)) && diff_count(
                Some(after.shadows[(EntityKind::Section, id)]),
                section_record(section).shadow,
            ) == 0
        }),
{
    lemma_field_names();
    let after = section_placed(state, id, name, bits, now);
    let previous = after.shadows[(EntityKind::Section, id)];
    let current = section_record(section).shadow;
    assert(previous.fields.contains_key("name"@));
    assert(previous.fields.contains_key("sortIndex"@));
    assert(previous.fields["name"@].equals(current.fields["name"@]));
    assert(previous.fields["sortIndex"@].equals(current.fields["sortIndex"@]));
    lemma_nothing_differs(previous, current);
}

/// An attachment whose file was just put together is not told again, as long as its manifest is the
/// one that was told.
pub proof fn lemma_installed_attachment_not_told_again(
    progress: Progress,
    id: Seq<char>,
    entity: EntityView,
    directory: Seq<char>,
    files: Map<Seq<char>, u64>,
    contents: Map<Seq<char>, Seq<u8>>,
    now: i64,
    attachment: AttachmentSnapshot,
)
    requires
        attachment_step(progress, id, entity, directory, files, contents, now) matches Ok(after)
            && after.installed.len() != progress.installed.len() && is_row_of_attachment(
            after.state,
            id,
            attachment,
        ),
        entity.metadata["manifest"@].value.manifest() == Some(attachment.manifest@),
    ensures
        ({
            let after = attachment_step(
                progress,
                id,
                entity,
                directory,
                files,
                contents,
                now,
            )->Ok_0.state;
            after.shadows.contains_key((EntityKind::Attachment, id)) && diff_count(
                Some(after.shadows[(EntityKind::Attachment, id)]),
                attachment_record(attachment).shadow,
            ) == 0
        }),
{
    lemma_field_names();
    lemma_installed_row(progress, id, entity, directory, files, contents, now);
    let after = attachment_step(
        progress,
        id,
        entity,
        directory,
        files,
        contents,
        now,
    )->Ok_0.state;
    let previous = after.shadows[(EntityKind::Attachment, id)];
    let current = attachment_record(attachment).shadow;
    let row = after.attachments[id];
    assert(row_fits(row, entity));
    assert(previous.fields.contains_key("itemId"@));
    assert(previous.fields.contains_key("name"@));
    assert(previous.fields.contains_key("mediaType"@));
    assert(previous.fields.contains_key("size"@));
    assert(previous.fields.contains_key("manifest"@));
    assert(previous.fields["itemId"@].equals(current.fields["itemId"@]));
    assert(previous.fields["name"@].equals(current.fields["name"@]));
    assert(previous.fields["mediaType"@].equals(current.fields["mediaType"@]));
    assert(previous.fields["size"@].equals(current.fields["size"@]));
    assert(previous.fields["manifest"@].equals(current.fields["manifest"@]));
    lemma_nothing_differs(previous, current);
}

} // verus!
