//! Attachments: which of them can be shown, and what their files are made of.

use vstd::prelude::*;
use vstd::string::*;

use crate::files::{
    hex_of, joined, manifest_of, manifest_valid, sha256, sha256_hex, validate_manifest, verify_chunk,
    ChunkDescriptor, ChunkView, FileManifest, ManifestView,
};
use crate::ids::uuid_text;
use crate::json::{json_quote, json_string};
use crate::model::{EntityKind, EntityState, EntityView, FieldValue, FieldView};
use crate::plain::{opt_view, same_all, views, Plain};
use crate::projection::{field_text, places_shown, text_field};
use crate::store::{
    AttachmentRow, AttachmentView, ChunkSource, Replica, ReplicaView, Shadow, ShadowView,
    SourceView, StoreError,
};
use crate::text::{
    ascii_lower, chars_of, decimal, decimal_text, last_index, last_place, lemma_split_behind,
    lemma_split_single, lemma_text_order, lower, split, split_text, text_before, text_eq, text_of,
};
use crate::textmap::{lemma_ordered_lists, ordered, TextMap};

verus! {

/// The longest extension that is kept of a file name.
pub const MAX_EXTENSION: usize = 12;

/// A path without slashes and single dots at its end.
pub open spec fn without_empty_end(path: Seq<char>) -> Seq<char>
    decreases path.len(),
{
    if path.len() > 0 && path.last() == '/' {
        without_empty_end(path.drop_last())
    } else if path.len() > 1 && path.last() == '.' && path[path.len() - 2] == '/' {
        without_empty_end(path.drop_last())
    } else {
        path
    }
}

/// The last name of a path. A path that is empty, or ends in the current or the parent directory,
/// has none.
pub open spec fn file_name(path: Seq<char>) -> Option<Seq<char>> {
    let trimmed = without_empty_end(path);
    let name = trimmed.skip(last_place(trimmed, '/') + 1);
    if name.len() == 0 || name == "."@ || name == ".."@ {
        None
    } else {
        Some(name)
    }
}

/// What stands behind the last dot of a file name, where something stands before it.
pub open spec fn extension(path: Seq<char>) -> Option<Seq<char>> {
    match file_name(path) {
        None => None,
        Some(name) => if last_place(name, '.') > 0 {
            Some(name.skip(last_place(name, '.') + 1))
        } else {
            None
        },
    }
}

/// An ASCII letter or digit.
pub open spec fn plain_letter(character: char) -> bool {
    ('0' <= character <= '9') || ('a' <= character <= 'z') || ('A' <= character <= 'Z')
}

/// The first twelve letters and digits of an extension, in small letters.
pub open spec fn cleaned(extension: Seq<char>) -> Seq<char> {
    let letters = extension.filter(|character: char| plain_letter(character));
    let kept = if letters.len() <= MAX_EXTENSION {
        letters
    } else {
        letters.take(MAX_EXTENSION as int)
    };
    kept.map_values(|character: char| ascii_lower(character))
}

/// The name under which the file of an attachment is kept: its identifier, with the cleaned
/// extension of its name where anything is left of one.
pub open spec fn stored_name(id: Seq<char>, name: Seq<char>) -> Seq<char> {
    match extension(name) {
        None => id,
        Some(text) => if cleaned(text).len() == 0 {
            id
        } else {
            id + seq!['.'] + cleaned(text)
        },
    }
}

/// The extension of a file name.
pub fn extension_of(path: &str) -> (result: Option<String>)
    ensures
        opt_view(result) == extension(path@),
{
    let characters = chars_of(path);
    let mut end: usize = characters.len();
    assert(path@.take(end as int) =~= path@);
    while end > 0 && (characters[end - 1] == '/' || (end > 1 && characters[end - 1] == '.'
        && characters[end - 2] == '/'))
        invariant
            characters@ == path@,
            end <= characters@.len(),
            without_empty_end(path@.take(end as int)) == without_empty_end(path@),
        decreases end,
    {
        assert(path@.take(end as int).drop_last() =~= path@.take(end - 1));
        end = end - 1;
    }
    let ghost trimmed = path@.take(end as int);
    assert(trimmed == without_empty_end(path@));
    let mut kept: Vec<char> = characters;
    kept.truncate(end);
    assert(kept@ =~= trimmed);
    let start: usize = match last_index(kept.as_slice(), '/') {
        Some(at) => at + 1,
        None => 0,
    };
    let name = kept.split_off(start);
    assert(name@ =~= trimmed.skip(last_place(trimmed, '/') + 1));
    let text = text_of(name.as_slice());
    if name.len() == 0 || text_eq(text.as_str(), ".") || text_eq(text.as_str(), "..") {
        return None;
    }
    match last_index(name.as_slice(), '.') {
        Some(at) => if at > 0 {
            let length: usize = name.len();
            assert(name@.subrange(at + 1, length as int) =~= name@.skip(at + 1));
            Some(text.as_str().substring_char(at + 1, length).to_owned())
        } else {
            None
        },
        None => None,
    }
}

fn clean_extension(text: &str) -> (result: String)
    ensures
        result@ == cleaned(text@),
{
    let characters = chars_of(text);
    let ghost letter = |character: char| plain_letter(character);
    let ghost small = |character: char| ascii_lower(character);
    let mut result = String::new();
    let mut count: usize = 0;
    let mut i: usize = 0;
    proof {
        reveal(Seq::filter);
        assert(result@ =~= text@.take(0).filter(letter).map_values(small));
    }
    while i < characters.len() && count < MAX_EXTENSION
        invariant
            characters@ == text@,
            letter == (|character: char| plain_letter(character)),
            small == (|character: char| ascii_lower(character)),
            i <= characters@.len(),
            count <= MAX_EXTENSION,
            count == text@.take(i as int).filter(letter).len(),
            result@ == text@.take(i as int).filter(letter).map_values(small),
        decreases characters@.len() - i,
    {
        let c: char = characters[i];
        let ghost head = text@.take(i as int).filter(letter);
        proof {
            reveal(Seq::filter);
            assert(text@.take(i + 1).drop_last() =~= text@.take(i as int));
        }
        if ('0' <= c && c <= '9') || ('a' <= c && c <= 'z') || ('A' <= c && c <= 'Z') {
            assert(letter(c));
            assert(head.push(c).map_values(small) =~= head.map_values(small).push(ascii_lower(c)));
            result.push(lower(c));
            count = count + 1;
        }
        i = i + 1;
    }
    proof {
        let all = text@.filter(letter);
        let head = text@.take(i as int).filter(letter);
        lemma_chars_filter_split(text@, i as int, letter);
        if i == characters@.len() {
            assert(text@.take(i as int) =~= text@);
            if all.len() == MAX_EXTENSION {
                assert(all.take(MAX_EXTENSION as int) =~= all);
            }
        } else {
            assert(all.take(MAX_EXTENSION as int) =~= head);
            if all.len() <= MAX_EXTENSION {
                assert(all =~= head);
            }
        }
    }
    result
}

proof fn lemma_chars_filter_split(all: Seq<char>, n: int, keep: spec_fn(char) -> bool)
    requires
        0 <= n <= all.len(),
    ensures
        all.filter(keep) == all.take(n).filter(keep) + all.skip(n).filter(keep),
    decreases all.len(),
{
    reveal(Seq::filter);
    if n == all.len() {
        assert(all.take(n) =~= all);
        assert(all.skip(n) =~= Seq::empty());
        assert(all.skip(n).filter(keep) =~= Seq::empty());
        assert(all.filter(keep) =~= all.take(n).filter(keep) + all.skip(n).filter(keep));
    } else {
        let h = all.drop_last();
        lemma_chars_filter_split(h, n, keep);
        assert(h.take(n) =~= all.take(n));
        assert(all.skip(n).drop_last() =~= h.skip(n));
        assert(all.filter(keep) =~= all.take(n).filter(keep) + all.skip(n).filter(keep));
    }
}

/// The name under which the file of an attachment is kept.
pub fn stored_file_name(entity_id: &str, name: &str) -> (result: String)
    ensures
        result@ == stored_name(entity_id@, name@),
{
    match extension_of(name) {
        None => entity_id.to_owned(),
        Some(text) => {
            let clean = clean_extension(text.as_str());
            if clean.as_str().is_empty() {
                entity_id.to_owned()
            } else {
                let mut result = entity_id.to_owned();
                result.push('.');
                result.append(clean.as_str());
                assert(result@ =~= entity_id@ + seq!['.'] + cleaned(text@));
                result
            }
        },
    }
}

/// The JSON form of a chunk.
pub open spec fn chunk_json(chunk: ChunkView) -> Seq<char> {
    "{\"sha256\":"@ + json_string(chunk.sha256) + ",\"size\":"@ + decimal(chunk.size as nat)
        + "}"@
}

/// The JSON form of chunks, with commas between.
pub open spec fn chunks_json(chunks: Seq<ChunkView>) -> Seq<char>
    decreases chunks.len(),
{
    if chunks.len() == 0 {
        Seq::empty()
    } else if chunks.len() == 1 {
        chunk_json(chunks[0])
    } else {
        chunks_json(chunks.drop_last()) + ","@ + chunk_json(chunks.last())
    }
}

/// The JSON form of a manifest, with its members in the order of their names.
pub open spec fn manifest_json(manifest: ManifestView) -> Seq<char> {
    "{\"chunkSize\":"@ + decimal(manifest.chunk_size as nat) + ",\"chunks\":["@ + chunks_json(
        manifest.chunks,
    ) + "],\"fileSha256\":"@ + json_string(manifest.file_sha256) + ",\"schemaVersion\":"@
        + decimal(manifest.schema_version as nat) + ",\"size\":"@ + decimal(manifest.size as nat)
        + "}"@
}

/// The field value of a manifest.
pub open spec fn manifest_value(manifest: ManifestView) -> FieldView {
    FieldView::Nested { encoded: manifest_json(manifest), manifest: Some(manifest) }
}

fn write_chunk(output: &mut String, chunk: &ChunkDescriptor)
    ensures
        final(output)@ == old(output)@ + chunk_json(chunk@),
{
    let ghost before = output@;
    output.append("{\"sha256\":");
    output.append(json_quote(chunk.sha256.as_str()).as_str());
    output.append(",\"size\":");
    output.append(decimal_text(chunk.size).as_str());
    output.append("}");
    assert(output@ =~= before + chunk_json(chunk@));
}

/// The field value of a manifest.
pub fn manifest_field(manifest: &FileManifest) -> (value: FieldValue)
    ensures
        value@ == manifest_value(manifest@),
{
    let ghost chunks = views(manifest.chunks@);
    let mut list = String::new();
    let mut i: usize = 0;
    assert(list@ =~= chunks_json(chunks.take(0)));
    while i < manifest.chunks.len()
        invariant
            chunks == views(manifest.chunks@),
            i <= manifest.chunks@.len(),
            list@ == chunks_json(chunks.take(i as int)),
        decreases manifest.chunks@.len() - i,
    {
        let ghost before = list@;
        proof {
            assert(chunks[i as int] == manifest.chunks@[i as int]@);
            assert(chunks.take(i + 1).drop_last() =~= chunks.take(i as int));
        }
        if i > 0 {
            list.append(",");
        }
        write_chunk(&mut list, &manifest.chunks[i]);
        proof {
            if i == 0 {
                assert(before =~= Seq::empty());
                assert(list@ =~= chunk_json(chunks[0]));
            } else {
                assert(list@ =~= before + ","@ + chunk_json(chunks[i as int]));
            }
        }
        i = i + 1;
    }
    assert(chunks.take(i as int) =~= chunks);
    let mut encoded = String::new();
    encoded.append("{\"chunkSize\":");
    encoded.append(decimal_text(manifest.chunk_size as u64).as_str());
    encoded.append(",\"chunks\":[");
    encoded.append(list.as_str());
    encoded.append("],\"fileSha256\":");
    encoded.append(json_quote(manifest.file_sha256.as_str()).as_str());
    encoded.append(",\"schemaVersion\":");
    encoded.append(decimal_text(manifest.schema_version as u64).as_str());
    encoded.append(",\"size\":");
    encoded.append(decimal_text(manifest.size).as_str());
    encoded.append("}");
    assert(encoded@ =~= manifest_json(manifest@));
    FieldValue::Nested { encoded, manifest: Some(manifest.duplicate()) }
}

/// Everything that an attachment must be told to be shown.
pub struct Wanted {
    pub item: Seq<char>,
    pub name: Seq<char>,
    pub media_type: Seq<char>,
    pub size: u64,
    pub size_field: FieldView,
    pub manifest: FieldView,
}

/// What an attachment was told, once all of it is there.
pub open spec fn wanted(entity: EntityView) -> Option<Wanted> {
    match (
        text_field(entity, "itemId"@),
        text_field(entity, "name"@),
        text_field(entity, "mediaType"@),
        entity.value("size"@),
        entity.value("manifest"@),
    ) {
        (Some(item), Some(name), Some(media_type), Some(size), Some(manifest)) => match size.natural(
        ) {
            Some(length) => Some(
                Wanted { item, name, media_type, size: length, size_field: size, manifest },
            ),
            None => None,
        },
        _ => None,
    }
}

/// What is told of an attachment that is shown.
pub open spec fn attachment_shadow(told: Wanted, manifest: ManifestView) -> ShadowView {
    ShadowView {
        fields: Map::empty().insert("itemId"@, FieldView::Text(told.item)).insert(
            "name"@,
            FieldView::Text(told.name),
        ).insert("mediaType"@, FieldView::Text(told.media_type)).insert(
            "size"@,
            told.size_field,
        ).insert("manifest"@, manifest_value(manifest)),
        content: None,
    }
}

/// The parts of a path between its slashes that name something.
pub open spec fn named_parts(parts: Seq<Seq<char>>) -> Seq<Seq<char>> {
    parts.filter(|part: Seq<char>| part.len() > 0 && part != "."@)
}

/// The components of a path: the root or the current directory where it begins there, and then what
/// is named. Slashes that are repeated or stand at the end, and dots in between, do not count. Paths
/// are those of a Unix system: only a slash parts them.
pub open spec fn components(path: Seq<char>) -> Seq<Seq<char>> {
    let parts = split(path, '/');
    if path.len() > 0 && path[0] == '/' {
        seq!["/"@] + named_parts(parts)
    } else if parts.len() > 0 && parts[0] == "."@ {
        seq!["."@] + named_parts(parts)
    } else {
        named_parts(parts)
    }
}

/// The components of a path.
pub fn path_components(path: &str) -> (list: Vec<String>)
    ensures
        views(list@) == components(path@),
{
    let parts = split_text(path, '/');
    let ghost all = split(path@, '/');
    let ghost counts = |part: Seq<char>| part.len() > 0 && part != "."@;
    let mut list: Vec<String> = Vec::new();
    let ghost mut front = Seq::<Seq<char>>::empty();
    if path.unicode_len() > 0 && path.get_char(0) == '/' {
        list.push("/".to_owned());
        proof {
            front = seq!["/"@];
        }
    } else if parts.len() > 0 && text_eq(parts[0].as_str(), ".") {
        list.push(".".to_owned());
        proof {
            front = seq!["."@];
        }
    }
    assert(parts.len() > 0 ==> parts@[0]@ == all[0]);
    assert(views(list@) =~= front);
    let mut i: usize = 0;
    proof {
        reveal(Seq::filter);
        assert(all.take(0).filter(counts) =~= Seq::empty());
        assert(front + all.take(0).filter(counts) =~= front);
    }
    while i < parts.len()
        invariant
            all == views(parts@),
            counts == (|part: Seq<char>| part.len() > 0 && part != "."@),
            i <= parts@.len(),
            views(list@) == front + all.take(i as int).filter(counts),
        decreases parts@.len() - i,
    {
        let part = parts[i].as_str();
        let ghost before = list@;
        let ghost head = all.take(i as int).filter(counts);
        proof {
            reveal(Seq::filter);
            assert(all.take(i + 1).drop_last() =~= all.take(i as int));
            assert(all.take(i + 1).last() == part@);
        }
        if !part.is_empty() && !text_eq(part, ".") {
            list.push(part.to_owned());
            proof {
                assert(counts(part@));
                assert(views(list@) =~= views(before).push(part@));
                assert((front + head).push(part@) =~= front + head.push(part@));
            }
        }
        i = i + 1;
    }
    assert(all.take(i as int) =~= all);
    list
}

/// Two paths name the same place.
pub open spec fn same_path(a: Seq<char>, b: Seq<char>) -> bool {
    components(a) == components(b)
}

/// Whether two paths name the same place.
pub fn is_same_path(a: &str, b: &str) -> (same: bool)
    ensures
        same == same_path(a@, b@),
{
    same_all(path_components(a).as_slice(), path_components(b).as_slice())
}

/// The path lies in a directory, or is the directory itself.
pub open spec fn lies_in(path: Seq<char>, directory: Seq<char>) -> bool {
    components(directory).is_prefix_of(components(path))
}

/// Whether a path lies in a directory, or is the directory itself.
pub fn is_inside(path: &str, directory: &str) -> (inside: bool)
    ensures
        inside == lies_in(path@, directory@),
{
    let mut parts = path_components(path);
    let front = path_components(directory);
    if parts.len() < front.len() {
        return false;
    }
    let ghost all = components(path@);
    parts.truncate(front.len());
    assert(views(parts@) =~= all.take(front@.len() as int));
    let inside = same_all(parts.as_slice(), front.as_slice());
    proof {
        let head = components(directory@);
        if inside {
            assert(all.take(head.len() as int) == head);
        }
        if head.is_prefix_of(all) {
            assert(head =~= all.take(head.len() as int));
        }
    }
    inside
}

/// A name in a directory.
pub open spec fn path_in(directory: Seq<char>, name: Seq<char>) -> Seq<char> {
    if directory.len() == 0 || directory.last() == '/' {
        directory + name
    } else {
        directory + seq!['/'] + name
    }
}

/// A name in a directory.
pub fn name_in(directory: &str, name: &str) -> (path: String)
    ensures
        path@ == path_in(directory@, name@),
{
    let mut path = directory.to_owned();
    let length: usize = directory.unicode_len();
    if length > 0 && directory.get_char(length - 1) != '/' {
        path.push('/');
    }
    path.append(name);
    assert(path@ =~= path_in(directory@, name@));
    path
}

/// The path of the file of an attachment.
pub open spec fn target_path(directory: Seq<char>, id: Seq<char>, name: Seq<char>) -> Seq<char> {
    path_in(directory, stored_name(id, name))
}

/// The attachment is shown as it should be: it is told of so, its row names the right file and
/// size, and the file is there with that size.
pub open spec fn up_to_date(
    state: ReplicaView,
    id: Seq<char>,
    shadow: ShadowView,
    target: Seq<char>,
    size: u64,
    files: Map<Seq<char>, u64>,
) -> bool {
    &&& state.shadows.contains_key((EntityKind::Attachment, id))
    &&& state.shadows[(EntityKind::Attachment, id)] == shadow
    &&& state.attachments.contains_key(id)
    &&& same_path(state.attachments[id].stored_path, target)
    &&& state.attachments[id].size == size
    &&& files.contains_key(state.attachments[id].stored_path)
    &&& files[state.attachments[id].stored_path] == size
}

/// Every chunk is kept somewhere with its size.
pub open spec fn chunks_kept(
    kept: Map<Seq<char>, SourceView>,
    chunks: Seq<ChunkView>,
) -> bool {
    forall|i: int|
        0 <= i < chunks.len() ==> kept.contains_key((#[trigger] chunks[i]).sha256)
            && kept[chunks[i].sha256].size == chunks[i].size
}

/// What is to be done about an attachment.
pub enum Verdict {
    Remove,
    Wait,
    Install { told: Wanted, manifest: ManifestView },
}

/// What is to be done about an attachment, given the files that are there by path and length. One
/// that is deleted is taken away; one that was not told everything, whose item is not shown, whose
/// chunks are not all there or that is up to date is left alone; a manifest that cannot be read or
/// does not follow the rules is an error.
pub open spec fn verdict(
    state: ReplicaView,
    id: Seq<char>,
    entity: EntityView,
    directory: Seq<char>,
    files: Map<Seq<char>, u64>,
) -> Result<Verdict, StoreError> {
    if entity.deleted_at is Some {
        Ok(Verdict::Remove)
    } else {
        match wanted(entity) {
            None => Ok(Verdict::Wait),
            Some(told) => match told.manifest.manifest() {
                None => Err(StoreError::Unreadable),
                Some(manifest) => if !manifest_valid(manifest) || manifest.size != told.size {
                    Err(StoreError::InvalidPayload)
                } else if !state.items.contains_key(told.item) || up_to_date(
                    state,
                    id,
                    attachment_shadow(told, manifest),
                    target_path(directory, id, told.name),
                    told.size,
                    files,
                ) || !chunks_kept(state.chunks, manifest.chunks) {
                    Ok(Verdict::Wait)
                } else {
                    Ok(Verdict::Install { told, manifest })
                },
            },
        }
    }
}

/// The addresses of chunks.
pub open spec fn chunk_addresses(chunks: Seq<ChunkView>) -> Seq<Seq<char>> {
    chunks.map_values(|chunk: ChunkView| chunk.sha256)
}

/// The chunks that are needed to show an attachment: those of its file, where the file is to be put
/// together.
pub open spec fn attachment_needs(
    state: ReplicaView,
    id: Seq<char>,
    entity: EntityView,
    directory: Seq<char>,
    files: Map<Seq<char>, u64>,
) -> Seq<Seq<char>> {
    match verdict(state, id, entity, directory, files) {
        Ok(Verdict::Install { told, manifest }) => chunk_addresses(manifest.chunks),
        _ => Seq::empty(),
    }
}

/// The chunks that are needed to show several attachments.
pub open spec fn needs_of(
    state: ReplicaView,
    ids: Seq<Seq<char>>,
    directory: Seq<char>,
    files: Map<Seq<char>, u64>,
) -> Seq<Seq<char>>
    decreases ids.len(),
{
    if ids.len() == 0 {
        Seq::empty()
    } else {
        needs_of(state, ids.drop_last(), directory, files) + attachment_needs(
            state,
            ids.last(),
            state.entities[(EntityKind::Attachment, ids.last())],
            directory,
            files,
        )
    }
}

/// The pieces of a file, from the contents of its chunks.
pub open spec fn chunk_pieces(
    chunks: Seq<ChunkView>,
    contents: Map<Seq<char>, Seq<u8>>,
) -> Seq<Seq<u8>> {
    chunks.map_values(|chunk: ChunkView| contents[chunk.sha256])
}

/// The file that chunks make up. Each must be at hand and be what its address says, and together
/// they must have the size and the digest of the manifest. The first chunk that is wrong decides
/// the error.
pub open spec fn assembled(
    manifest: ManifestView,
    contents: Map<Seq<char>, Seq<u8>>,
) -> Result<Seq<u8>, StoreError> {
    match pieces_fault(manifest.chunks, contents) {
        Some(error) => Err(error),
        None => {
            let whole = joined(chunk_pieces(manifest.chunks, contents));
            if whole.len() != manifest.size || hex_of(sha256(whole)) != manifest.file_sha256 {
                Err(StoreError::InvalidPayload)
            } else {
                Ok(whole)
            }
        },
    }
}

/// Why the chunks cannot be put together, as far as each of them goes.
pub open spec fn pieces_fault(
    chunks: Seq<ChunkView>,
    contents: Map<Seq<char>, Seq<u8>>,
) -> Option<StoreError>
    decreases chunks.len(),
{
    if chunks.len() == 0 {
        None
    } else {
        match pieces_fault(chunks.drop_last(), contents) {
            Some(error) => Some(error),
            None => {
                let address = chunks.last().sha256;
                if !contents.contains_key(address) {
                    Some(StoreError::MissingContent)
                } else if hex_of(sha256(contents[address])) != address {
                    Some(StoreError::InvalidPayload)
                } else {
                    None
                }
            },
        }
    }
}

/// A file that was cut into chunks comes back whole: put together from the pieces that it was cut
/// into, by the manifest that was made of it, it is what it was.
pub proof fn lemma_cut_file_comes_back(
    pieces: Seq<Seq<u8>>,
    chunk_size: int,
    contents: Map<Seq<char>, Seq<u8>>,
)
    requires
        joined(pieces).len() <= u64::MAX,
        forall|i: int|
            0 <= i < pieces.len() ==> contents.contains_key(
                hex_of(sha256(#[trigger] pieces[i])),
            ) && contents[hex_of(sha256(pieces[i]))] == pieces[i],
    ensures
        assembled(manifest_of(pieces, chunk_size), contents) == Ok::<Seq<u8>, StoreError>(
            joined(pieces),
        ),
{
    let chunks = manifest_of(pieces, chunk_size).chunks;
    lemma_cut_pieces_hold(pieces, chunk_size, contents, pieces.len() as int);
    assert(chunks.take(pieces.len() as int) =~= chunks);
    assert(chunk_pieces(chunks, contents) =~= pieces);
}

proof fn lemma_cut_pieces_hold(
    pieces: Seq<Seq<u8>>,
    chunk_size: int,
    contents: Map<Seq<char>, Seq<u8>>,
    n: int,
)
    requires
        0 <= n <= pieces.len(),
        forall|i: int|
            0 <= i < pieces.len() ==> contents.contains_key(
                hex_of(sha256(#[trigger] pieces[i])),
            ) && contents[hex_of(sha256(pieces[i]))] == pieces[i],
    ensures
        pieces_fault(manifest_of(pieces, chunk_size).chunks.take(n), contents) is None,
    decreases n,
{
    if n > 0 {
        let chunks = manifest_of(pieces, chunk_size).chunks;
        lemma_cut_pieces_hold(pieces, chunk_size, contents, n - 1);
        assert(chunks.take(n).drop_last() =~= chunks.take(n - 1));
        assert(chunks.take(n).last() == chunks[n - 1]);
        assert(chunks[n - 1].sha256 == hex_of(sha256(pieces[n - 1])));
    }
}

proof fn lemma_pieces_fault_prefix(
    chunks: Seq<ChunkView>,
    contents: Map<Seq<char>, Seq<u8>>,
    n: int,
)
    requires
        0 <= n <= chunks.len(),
        pieces_fault(chunks.take(n), contents) is Some,
    ensures
        pieces_fault(chunks, contents) == pieces_fault(chunks.take(n), contents),
    decreases chunks.len() - n,
{
    if n < chunks.len() {
        assert(chunks.take(n + 1).drop_last() =~= chunks.take(n));
        lemma_pieces_fault_prefix(chunks, contents, n + 1);
    } else {
        assert(chunks.take(n) =~= chunks);
    }
}

/// Bytes under a name.
#[derive(Debug, Clone, PartialEq, Eq)]
pub struct Content(pub Vec<u8>);

impl View for Content {
    type V = Seq<u8>;

    open spec fn view(&self) -> Seq<u8> {
        self.0@
    }
}

/// Puts a file together from the contents of its chunks, and checks every part of it.
pub fn assemble(manifest: &FileManifest, contents: &TextMap<Content>) -> (result: Result<
    Vec<u8>,
    StoreError,
>)
    ensures
        match assembled(manifest@, contents@) {
            Err(error) => result == Err::<Vec<u8>, StoreError>(error),
            Ok(bytes) => result matches Ok(whole) && whole@ == bytes,
        },
{
    let ghost chunks = views(manifest.chunks@);
    let ghost pieces = chunk_pieces(chunks, contents@);
    let mut whole: Vec<u8> = Vec::new();
    let mut i: usize = 0;
    assert(chunks.take(0) =~= Seq::empty());
    assert(pieces.take(0) =~= Seq::empty());
    while i < manifest.chunks.len()
        invariant
            chunks == views(manifest.chunks@),
            pieces == chunk_pieces(chunks, contents@),
            manifest@.chunks == chunks,
            i <= manifest.chunks@.len(),
            pieces_fault(chunks.take(i as int), contents@) is None,
            whole@ == joined(pieces.take(i as int)),
        decreases manifest.chunks@.len() - i,
    {
        let chunk = &manifest.chunks[i];
        proof {
            assert(chunks[i as int] == chunk@);
            assert(chunks.take(i + 1).drop_last() =~= chunks.take(i as int));
            assert(pieces.take(i + 1).drop_last() =~= pieces.take(i as int));
        }
        match contents.get(chunk.sha256.as_str()) {
            None => {
                proof {
                    lemma_pieces_fault_prefix(chunks, contents@, i + 1);
                }
                return Err(StoreError::MissingContent);
            },
            Some(content) => {
                if !verify_chunk(chunk.sha256.as_str(), content.0.as_slice()) {
                    proof {
                        lemma_pieces_fault_prefix(chunks, contents@, i + 1);
                    }
                    return Err(StoreError::InvalidPayload);
                }
                let ghost before = whole@;
                whole.extend_from_slice(content.0.as_slice());
                assert(whole@ =~= before + content@);
                assert(pieces[i as int] == content@);
            },
        }
        i = i + 1;
    }
    assert(chunks.take(i as int) =~= chunks);
    assert(pieces.take(i as int) =~= pieces);
    if whole.len() as u64 != manifest.size || !text_eq(
        sha256_hex(whole.as_slice()).as_str(),
        manifest.file_sha256.as_str(),
    ) {
        return Err(StoreError::InvalidPayload);
    }
    Ok(whole)
}

/// A file that is to be written.
#[derive(Debug, Clone, PartialEq, Eq)]
pub struct InstalledFile {
    pub path: String,
    pub bytes: Vec<u8>,
}

/// What a file to be written says.
pub struct FileView {
    pub path: Seq<char>,
    pub bytes: Seq<u8>,
}

impl View for InstalledFile {
    type V = FileView;

    open spec fn view(&self) -> FileView {
        FileView { path: self.path@, bytes: self.bytes@ }
    }
}

/// How far the attachments have come: the copy, the files to be written and those that are no
/// longer needed.
pub struct Progress {
    pub state: ReplicaView,
    pub installed: Seq<FileView>,
    pub obsolete: Seq<Seq<char>>,
}

/// The obsolete files together with the one of a row, where there is a row with another file in
/// the directory of attachments. Files anywhere else are not the workspace's to remove.
pub open spec fn outdated(
    progress: Progress,
    id: Seq<char>,
    directory: Seq<char>,
    target: Option<Seq<char>>,
) -> Seq<Seq<char>> {
    let path = progress.state.attachments[id].stored_path;
    if progress.state.attachments.contains_key(id) && !(target is Some && same_path(
        path,
        target->0,
    )) && lies_in(path, directory) {
        progress.obsolete.push(path)
    } else {
        progress.obsolete
    }
}

/// The attachment is taken away.
pub open spec fn attachment_removed(
    progress: Progress,
    id: Seq<char>,
    directory: Seq<char>,
) -> Progress {
    Progress {
        state: ReplicaView {
            attachments: progress.state.attachments.remove(id),
            shadows: progress.state.shadows.remove((EntityKind::Attachment, id)),
            ..progress.state
        },
        installed: progress.installed,
        obsolete: outdated(progress, id, directory, None),
    }
}

/// The attachment is shown with the given file.
pub open spec fn attachment_installed(
    progress: Progress,
    id: Seq<char>,
    told: Wanted,
    manifest: ManifestView,
    directory: Seq<char>,
    bytes: Seq<u8>,
    now: i64,
) -> Progress {
    let target = target_path(directory, id, told.name);
    Progress {
        state: ReplicaView {
            attachments: progress.state.attachments.insert(
                id,
                AttachmentView {
                    item: told.item,
                    name: told.name,
                    stored_path: target,
                    media_type: told.media_type,
                    size: told.size,
                    created_at: if progress.state.attachments.contains_key(id) {
                        progress.state.attachments[id].created_at
                    } else {
                        now
                    },
                },
            ),
            shadows: progress.state.shadows.insert(
                (EntityKind::Attachment, id),
                attachment_shadow(told, manifest),
            ),
            ..progress.state
        },
        installed: progress.installed.push(FileView { path: target, bytes }),
        obsolete: outdated(progress, id, directory, Some(target)),
    }
}

/// What comes of one attachment.
pub open spec fn attachment_step(
    progress: Progress,
    id: Seq<char>,
    entity: EntityView,
    directory: Seq<char>,
    files: Map<Seq<char>, u64>,
    contents: Map<Seq<char>, Seq<u8>>,
    now: i64,
) -> Result<Progress, StoreError> {
    match verdict(progress.state, id, entity, directory, files) {
        Err(error) => Err(error),
        Ok(Verdict::Remove) => Ok(attachment_removed(progress, id, directory)),
        Ok(Verdict::Wait) => Ok(progress),
        Ok(Verdict::Install { told, manifest }) => match assembled(manifest, contents) {
            Err(error) => Err(error),
            Ok(bytes) => Ok(
                attachment_installed(
                    progress,
                    id,
                    told,
                    manifest,
                    directory,
                    bytes,
                    now,
                ),
            ),
        },
    }
}

/// What comes of several attachments, one after the other.
pub open spec fn attachments_projected(
    state: ReplicaView,
    ids: Seq<Seq<char>>,
    directory: Seq<char>,
    files: Map<Seq<char>, u64>,
    contents: Map<Seq<char>, Seq<u8>>,
    now: i64,
) -> Result<Progress, StoreError>
    decreases ids.len(),
{
    if ids.len() == 0 {
        Ok(Progress { state, installed: Seq::empty(), obsolete: Seq::empty() })
    } else {
        match attachments_projected(state, ids.drop_last(), directory, files, contents, now) {
            Err(error) => Err(error),
            Ok(progress) => attachment_step(
                progress,
                ids.last(),
                state.entities[(EntityKind::Attachment, ids.last())],
                directory,
                files,
                contents,
                now,
            ),
        }
    }
}

/// The attachments that are known.
pub open spec fn known_attachments(state: ReplicaView) -> Set<Seq<char>> {
    Set::new(|id: Seq<char>| state.entities.contains_key((EntityKind::Attachment, id)))
}

/// What is to be written and removed once attachments were shown.
#[derive(Debug, Clone, PartialEq, Eq)]
pub struct AttachmentChanges {
    pub installed: Vec<InstalledFile>,
    pub obsolete: Vec<String>,
}

/// A file that is to be put together, and what is shown of it.
struct InstallPlan<'a> {
    item: &'a String,
    name: &'a String,
    media_type: &'a String,
    size: u64,
    manifest: &'a FileManifest,
    shadow: Shadow,
    target: String,
}

fn are_chunks_kept(kept: &TextMap<ChunkSource>, chunks: &[ChunkDescriptor]) -> (result: bool)
    ensures
        result == chunks_kept(kept@, views(chunks@)),
{
    let ghost all = views(chunks@);
    let mut i: usize = 0;
    while i < chunks.len()
        invariant
            all == views(chunks@),
            i <= chunks@.len(),
            forall|j: int|
                0 <= j < i ==> kept@.contains_key((#[trigger] all[j]).sha256)
                    && kept@[all[j].sha256].size == all[j].size,
        decreases chunks@.len() - i,
    {
        assert(all[i as int] == chunks@[i as int]@);
        match kept.get(chunks[i].sha256.as_str()) {
            Some(source) => {
                if source.size != chunks[i].size {
                    return false;
                }
            },
            None => {
                return false;
            },
        }
        i = i + 1;
    }
    true
}


proof fn lemma_attachments_error(
    state: ReplicaView,
    ids: Seq<Seq<char>>,
    n: int,
    directory: Seq<char>,
    files: Map<Seq<char>, u64>,
    contents: Map<Seq<char>, Seq<u8>>,
    now: i64,
)
    requires
        0 <= n <= ids.len(),
        attachments_projected(state, ids.take(n), directory, files, contents, now) is Err,
    ensures
        attachments_projected(state, ids, directory, files, contents, now)
            == attachments_projected(state, ids.take(n), directory, files, contents, now),
    decreases ids.len() - n,
{
    if n < ids.len() {
        assert(ids.take(n + 1).drop_last() =~= ids.take(n));
        lemma_attachments_error(state, ids, n + 1, directory, files, contents, now);
    } else {
        assert(ids.take(n) =~= ids);
    }
}

impl Replica {
    fn retire_file(
        &self,
        id: &str,
        directory: &str,
        target: Option<&str>,
        obsolete: &mut Vec<String>,
    )
        ensures
            views(final(obsolete)@) == outdated(
                (Progress {
                    state: self@,
                    installed: Seq::empty(),
                    obsolete: views(old(obsolete)@),
                }),
                id@,
                directory@,
                match target {
                    Some(path) => Some(path@),
                    None => None,
                },
            ),
    {
        let ghost before = obsolete@;
        match self.attachments.get(id) {
            None => {},
            Some(row) => {
                let kept = match target {
                    Some(path) => is_same_path(row.stored_path.as_str(), path),
                    None => false,
                };
                if !kept && is_inside(row.stored_path.as_str(), directory) {
                    obsolete.push(row.stored_path.duplicate());
                    assert(views(obsolete@) =~= views(before).push(row@.stored_path));
                }
            },
        }
    }

    fn is_up_to_date(
        &self,
        id: &str,
        shadow: &Shadow,
        target: &str,
        size: u64,
        files: &TextMap<u64>,
    ) -> (current: bool)
        ensures
            current == up_to_date(self@, id@, shadow@, target@, size, files@),
    {
        let told = match self.shadows.get(EntityKind::Attachment, id) {
            Some(known) => known.same(shadow),
            None => false,
        };
        let placed = match self.attachments.get(id) {
            Some(row) => is_same_path(row.stored_path.as_str(), target) && row.size == size && (
            match files.get(row.stored_path.as_str()) {
                Some(length) => *length == size,
                None => false,
            }),
            None => false,
        };
        told && placed
    }

    /// The file that is to be put together for an attachment, if one is.
    fn plan<'a>(
        &self,
        id: &str,
        entity: &'a EntityState,
        directory: &str,
        files: &TextMap<u64>,
    ) -> (result: Result<Option<InstallPlan<'a>>, StoreError>)
        ensures
            match verdict(self@, id@, entity@, directory@, files@) {
                Err(error) => result == Err::<Option<InstallPlan<'a>>, StoreError>(error),
                Ok(Verdict::Install { told, manifest }) => result matches Ok(Some(plan))
                    && wanted(entity@) == Some(told) && plan.manifest@ == manifest && plan.item@
                    == told.item && plan.name@ == told.name && plan.media_type@ == told.media_type
                    && plan.size == told.size && plan.shadow@ == attachment_shadow(told, manifest)
                    && plan.target@ == target_path(directory@, id@, told.name),
                _ => result matches Ok(None),
            },
    {
        if entity.is_deleted() {
            return Ok(None);
        }
        let (item, name, media_type, size_field, manifest_told) = match (
            field_text(entity, "itemId"),
            field_text(entity, "name"),
            field_text(entity, "mediaType"),
            entity.value("size"),
            entity.value("manifest"),
        ) {
            (Some(item), Some(name), Some(media_type), Some(size), Some(manifest)) => (
                item,
                name,
                media_type,
                size,
                manifest,
            ),
            _ => {
                return Ok(None);
            },
        };
        let size: u64 = match size_field.as_natural() {
            None => {
                return Ok(None);
            },
            Some(size) => size,
        };
        let ghost told = Wanted {
            item: item@,
            name: name@,
            media_type: media_type@,
            size,
            size_field: size_field@,
            manifest: manifest_told@,
        };
        assert(wanted(entity@) == Some(told));
        let manifest = match manifest_told.as_manifest() {
            None => {
                return Err(StoreError::Unreadable);
            },
            Some(manifest) => manifest,
        };
        if !validate_manifest(manifest) || manifest.size != size {
            return Err(StoreError::InvalidPayload);
        }
        if self.items.get(item.as_str()).is_none() {
            return Ok(None);
        }
        let mut fields: TextMap<FieldValue> = TextMap::new();
        fields.insert("itemId".to_owned(), FieldValue::Text(item.duplicate()));
        fields.insert("name".to_owned(), FieldValue::Text(name.duplicate()));
        fields.insert("mediaType".to_owned(), FieldValue::Text(media_type.duplicate()));
        fields.insert("size".to_owned(), size_field.duplicate());
        fields.insert("manifest".to_owned(), manifest_field(manifest));
        let shadow = Shadow { fields, content: None };
        assert(shadow@ == attachment_shadow(told, manifest@));
        let target = name_in(directory, stored_file_name(id, name.as_str()).as_str());
        if self.is_up_to_date(id, &shadow, target.as_str(), size, files) || !are_chunks_kept(
            &self.chunks,
            manifest.chunks.as_slice(),
        ) {
            return Ok(None);
        }
        Ok(Some(InstallPlan { item, name, media_type, size, manifest, shadow, target }))
    }

    /// The addresses of the chunks whose bytes are needed to show the attachments that are complete
    /// and not shown yet.
    pub fn wanted_chunks(&self, attachments_dir: &str, files: &TextMap<u64>) -> (hashes: Vec<String>)
        ensures
            views(hashes@) == needs_of(
                self@,
                ordered(known_attachments(self@)),
                attachments_dir@,
                files@,
            ),
    {
        let states = &self.entities.attachments;
        let count: usize = states.len();
        let ghost keys = states.keys();
        let mut hashes: Vec<String> = Vec::new();
        proof {
            assert(states@.dom() =~= known_attachments(self@));
            assert(views(hashes@) =~= Seq::empty());
            assert(keys.take(0) =~= Seq::empty());
        }
        let mut i: usize = 0;
        while i < count
            invariant
                count == states.keys().len(),
                keys == states.keys(),
                keys == ordered(known_attachments(self@)),
                forall|id: Seq<char>| #[trigger]
                    states@.contains_key(id) ==> states@[id] == self@.entities[(
                        EntityKind::Attachment,
                        id,
                    )],
                i <= count,
                views(hashes@) == needs_of(self@, keys.take(i as int), attachments_dir@, files@),
            decreases count - i,
        {
            let id = states.key_at(i);
            let state = states.value_at(i);
            let ghost held = views(hashes@);
            proof {
                assert(keys.take(i + 1).drop_last() =~= keys.take(i as int));
                assert(keys.take(i + 1).last() == id@);
            }
            match self.plan(id.as_str(), state, attachments_dir, files) {
                Ok(Some(plan)) => {
                    let chunks = plan.manifest.chunks.as_slice();
                    let ghost needed = chunk_addresses(views(chunks@));
                    let mut at: usize = 0;
                    assert(held + needed.take(0) =~= held);
                    while at < chunks.len()
                        invariant
                            needed == chunk_addresses(views(chunks@)),
                            at <= chunks@.len(),
                            views(hashes@) == held + needed.take(at as int),
                        decreases chunks@.len() - at,
                    {
                        let ghost before = hashes@;
                        hashes.push(chunks[at].sha256.duplicate());
                        assert(views(hashes@) =~= views(before).push(needed[at as int]));
                        assert(held + needed.take(at + 1) =~= (held + needed.take(
                            at as int,
                        )).push(needed[at as int]));
                        at = at + 1;
                    }
                    assert(needed.take(at as int) =~= needed);
                },
                _ => {
                    assert(held + Seq::<Seq<char>>::empty() =~= held);
                },
            }
            i = i + 1;
        }
        assert(keys.take(count as int) =~= keys);
        hashes
    }

    /// Shows an attachment, or takes it away, given what its operations add up to.
    fn show_attachment(
        &mut self,
        id: &str,
        entity: &EntityState,
        directory: &str,
        files: &TextMap<u64>,
        contents: &TextMap<Content>,
        now: i64,
        changes: &mut AttachmentChanges,
    ) -> (result: Result<(), StoreError>)
        ensures
            match attachment_step(
                (Progress {
                    state: old(self)@,
                    installed: views(old(changes).installed@),
                    obsolete: views(old(changes).obsolete@),
                }),
                id@,
                entity@,
                directory@,
                files@,
                contents@,
                now,
            ) {
                Err(error) => result == Err::<(), StoreError>(error),
                Ok(progress) => result is Ok && final(self)@ == progress.state && views(
                    final(changes).installed@,
                ) == progress.installed && views(final(changes).obsolete@) == progress.obsolete,
            },
    {
        let ghost before = Progress {
            state: self@,
            installed: views(changes.installed@),
            obsolete: views(changes.obsolete@),
        };
        if entity.is_deleted() {
            self.retire_file(id, directory, None, &mut changes.obsolete);
            self.attachments.remove(id);
            self.shadows.remove(EntityKind::Attachment, id);
            assert(self@ == attachment_removed(before, id@, directory@).state);
            return Ok(());
        }
        let plan = match self.plan(id, entity, directory, files) {
            Err(error) => {
                return Err(error);
            },
            Ok(None) => {
                return Ok(());
            },
            Ok(Some(plan)) => plan,
        };
        let ghost told = wanted(entity@)->0;
        let InstallPlan { item, name, media_type, size, manifest, shadow, target } = plan;
        let bytes = match assemble(manifest, contents) {
            Err(error) => {
                return Err(error);
            },
            Ok(bytes) => bytes,
        };
        self.retire_file(id, directory, Some(target.as_str()), &mut changes.obsolete);
        let created_at: i64 = match self.attachments.get(id) {
            Some(row) => row.created_at,
            None => now,
        };
        self.attachments.insert(
            id.to_owned(),
            AttachmentRow {
                item: item.duplicate(),
                name: name.duplicate(),
                stored_path: target.duplicate(),
                media_type: media_type.duplicate(),
                size,
                created_at,
            },
        );
        self.shadows.insert(EntityKind::Attachment, id.to_owned(), shadow);
        let ghost after = attachment_installed(
            before,
            id@,
            told,
            manifest@,
            directory@,
            bytes@,
            now,
        );
        let ghost whole = bytes@;
        changes.installed.push(InstalledFile { path: target, bytes });
        assert(views(changes.installed@) =~= before.installed.push(
            FileView { path: target_path(directory@, id@, name@), bytes: whole },
        ));
        assert(self@ == after.state);
        Ok(())
    }

    /// Shows every attachment of which all chunks are there, and takes the deleted ones away. The
    /// files are given by path and length, and the bytes that chunks hold by their addresses. What
    /// is to be written and removed is handed back; an error changes nothing.
    pub fn project_ready_attachments(
        &mut self,
        attachments_dir: &str,
        files: &TextMap<u64>,
        contents: &TextMap<Content>,
        now: i64,
    ) -> (result: Result<AttachmentChanges, StoreError>)
        ensures
            match attachments_projected(
                old(self)@,
                ordered(known_attachments(old(self)@)),
                attachments_dir@,
                files@,
                contents@,
                now,
            ) {
                Err(error) => result == Err::<AttachmentChanges, StoreError>(error) && final(self)@ == old(self)@,
                Ok(progress) => (result matches Ok(changes) && views(changes.installed@)
                    == progress.installed && views(changes.obsolete@) == progress.obsolete)
                    && final(self)@ == progress.state,
            },
    {
        let ghost start = self@;
        let states = self.entities.attachments.copied();
        let count: usize = states.len();
        let ghost keys = states.keys();
        let mut work = self.copied();
        let mut changes = AttachmentChanges { installed: Vec::new(), obsolete: Vec::new() };
        proof {
            assert(states@.dom() =~= known_attachments(start));
            assert(views(changes.installed@) =~= Seq::empty());
            assert(views(changes.obsolete@) =~= Seq::empty());
            assert(keys.take(0) =~= Seq::empty());
        }
        let mut i: usize = 0;
        while i < count
            invariant
                start == old(self)@,
                self@ == start,
                count == states.keys().len(),
                keys == states.keys(),
                keys == ordered(known_attachments(start)),
                forall|id: Seq<char>| #[trigger]
                    states@.contains_key(id) ==> states@[id] == start.entities[(
                        EntityKind::Attachment,
                        id,
                    )],
                i <= count,
                attachments_projected(
                    start,
                    keys.take(i as int),
                    attachments_dir@,
                    files@,
                    contents@,
                    now,
                ) == Ok::<Progress, StoreError>(
                    (Progress {
                        state: work@,
                        installed: views(changes.installed@),
                        obsolete: views(changes.obsolete@),
                    }),
                ),
            decreases count - i,
        {
            let id = states.key_at(i);
            let state = states.value_at(i);
            proof {
                assert(keys.take(i + 1).drop_last() =~= keys.take(i as int));
                assert(keys.take(i + 1).last() == id@);
            }
            match work.show_attachment(
                id.as_str(),
                state,
                attachments_dir,
                files,
                contents,
                now,
                &mut changes,
            ) {
                Err(error) => {
                    proof {
                        lemma_attachments_error(
                            start,
                            keys,
                            i + 1,
                            attachments_dir@,
                            files@,
                            contents@,
                            now,
                        );
                    }
                    return Err(error);
                },
                Ok(()) => {},
            }
            i = i + 1;
        }
        assert(keys.take(count as int) =~= keys);
        *self = work;
        Ok(changes)
    }
}

/// Nothing is left to be done about an attachment, as long as the file of its row is there.
pub open spec fn settled(
    state: ReplicaView,
    id: Seq<char>,
    entity: EntityView,
    directory: Seq<char>,
) -> bool {
    if entity.deleted_at is Some {
        !state.attachments.contains_key(id) && !state.shadows.contains_key(
            (EntityKind::Attachment, id),
        )
    } else {
        wanted(entity) matches Some(told) ==> {
            &&& told.manifest.manifest() matches Some(manifest)
            &&& manifest_valid(manifest)
            &&& manifest.size == told.size
            &&& state.items.contains_key(told.item) && chunks_kept(state.chunks, manifest.chunks)
                ==> {
                &&& state.shadows.contains_key((EntityKind::Attachment, id))
                &&& state.shadows[(EntityKind::Attachment, id)] == attachment_shadow(
                    told,
                    manifest,
                )
                &&& state.attachments.contains_key(id)
                &&& same_path(
                    state.attachments[id].stored_path,
                    target_path(directory, id, told.name),
                )
                &&& state.attachments[id].size == told.size
            }
        }
    }
}

/// The file of every row is there, with the size that the row says.
pub open spec fn rows_have_files(state: ReplicaView, files: Map<Seq<char>, u64>) -> bool {
    forall|id: Seq<char>| #[trigger]
        state.attachments.contains_key(id) ==> files.contains_key(
            state.attachments[id].stored_path,
        ) && files[state.attachments[id].stored_path] == state.attachments[id].size
}

proof fn lemma_projected_settles(
    state: ReplicaView,
    ids: Seq<Seq<char>>,
    directory: Seq<char>,
    files: Map<Seq<char>, u64>,
    contents: Map<Seq<char>, Seq<u8>>,
    now: i64,
)
    requires
        ids.no_duplicates(),
        attachments_projected(state, ids, directory, files, contents, now) is Ok,
    ensures
        ({
            let after = attachments_projected(
                state,
                ids,
                directory,
                files,
                contents,
                now,
            )->Ok_0.state;
            &&& after.items == state.items
            &&& after.chunks == state.chunks
            &&& after.entities == state.entities
            &&& forall|i: int|
                0 <= i < ids.len() ==> settled(
                    after,
                    #[trigger] ids[i],
                    state.entities[(EntityKind::Attachment, ids[i])],
                    directory,
                )
        }),
    decreases ids.len(),
{
    if ids.len() > 0 {
        let shorter = ids.drop_last();
        assert(shorter.no_duplicates()) by {
            assert forall|i: int, j: int|
                0 <= i < shorter.len() && 0 <= j < shorter.len() && i != j implies shorter[i]
                != shorter[j] by {
                assert(ids[i] != ids[j]);
            }
        }
        lemma_projected_settles(state, shorter, directory, files, contents, now);
        let before = attachments_projected(state, shorter, directory, files, contents, now)->Ok_0;
        let after = attachments_projected(state, ids, directory, files, contents, now)->Ok_0;
        let id = ids.last();
        let entity = state.entities[(EntityKind::Attachment, id)];
        assert(Ok::<Progress, StoreError>(after) == attachment_step(
            before,
            id,
            entity,
            directory,
            files,
            contents,
            now,
        ));
        assert(settled(after.state, id, entity, directory));
        assert forall|i: int| 0 <= i < ids.len() implies settled(
            after.state,
            #[trigger] ids[i],
            state.entities[(EntityKind::Attachment, ids[i])],
            directory,
        ) by {
            if i < shorter.len() {
                assert(shorter[i] == ids[i]);
                assert(ids[i] != ids[ids.len() - 1]);
                let other = ids[i];
                assert(before.state.attachments.contains_key(other)
                    == after.state.attachments.contains_key(other));
                assert(before.state.attachments.contains_key(other)
                    ==> before.state.attachments[other] == after.state.attachments[other]);
                let key = (EntityKind::Attachment, other);
                assert(before.state.shadows.contains_key(key) == after.state.shadows.contains_key(
                    key,
                ));
                assert(before.state.shadows.contains_key(key) ==> before.state.shadows[key]
                    == after.state.shadows[key]);
            }
        }
    }
}

proof fn lemma_settled_stays(
    state: ReplicaView,
    ids: Seq<Seq<char>>,
    directory: Seq<char>,
    files: Map<Seq<char>, u64>,
    contents: Map<Seq<char>, Seq<u8>>,
    now: i64,
)
    requires
        rows_have_files(state, files),
        forall|i: int|
            0 <= i < ids.len() ==> settled(
                state,
                #[trigger] ids[i],
                state.entities[(EntityKind::Attachment, ids[i])],
                directory,
            ),
    ensures
        attachments_projected(state, ids, directory, files, contents, now) == Ok::<
            Progress,
            StoreError,
        >((Progress { state, installed: Seq::empty(), obsolete: Seq::empty() })),
    decreases ids.len(),
{
    if ids.len() > 0 {
        let shorter = ids.drop_last();
        assert forall|i: int| 0 <= i < shorter.len() implies settled(
            state,
            #[trigger] shorter[i],
            state.entities[(EntityKind::Attachment, shorter[i])],
            directory,
        ) by {
            assert(shorter[i] == ids[i]);
        }
        lemma_settled_stays(state, shorter, directory, files, contents, now);
        let id = ids[ids.len() - 1];
        let entity = state.entities[(EntityKind::Attachment, id)];
        let progress = Progress { state, installed: Seq::empty(), obsolete: Seq::empty() };
        assert(settled(state, id, entity, directory));
        if entity.deleted_at is Some {
            assert(state.attachments.remove(id) =~= state.attachments);
            assert(state.shadows.remove((EntityKind::Attachment, id)) =~= state.shadows);
            assert(attachment_removed(progress, id, directory) == progress);
        } else {
            assert(verdict(state, id, entity, directory, files) == Ok::<Verdict, StoreError>(
                Verdict::Wait,
            ));
        }
    }
}

/// Showing attachments a second time does nothing, once the files of all rows are there: no file
/// is put together or removed again, whatever the chunks and the clock are by then.
pub proof fn lemma_projection_settles(
    state: ReplicaView,
    directory: Seq<char>,
    files: Map<Seq<char>, u64>,
    contents: Map<Seq<char>, Seq<u8>>,
    now: i64,
    later_files: Map<Seq<char>, u64>,
    later_contents: Map<Seq<char>, Seq<u8>>,
    later: i64,
)
    requires
        known_attachments(state).finite(),
        attachments_projected(
            state,
            ordered(known_attachments(state)),
            directory,
            files,
            contents,
            now,
        ) is Ok,
        rows_have_files(
            attachments_projected(
                state,
                ordered(known_attachments(state)),
                directory,
                files,
                contents,
                now,
            )->Ok_0.state,
            later_files,
        ),
    ensures
        ({
            let after = attachments_projected(
                state,
                ordered(known_attachments(state)),
                directory,
                files,
                contents,
                now,
            )->Ok_0.state;
            attachments_projected(
                after,
                ordered(known_attachments(after)),
                directory,
                later_files,
                later_contents,
                later,
            ) == Ok::<Progress, StoreError>(
                (Progress { state: after, installed: Seq::empty(), obsolete: Seq::empty() }),
            )
        }),
{
    let ids = ordered(known_attachments(state));
    lemma_ordered_lists(known_attachments(state));
    assert(ids.no_duplicates()) by {
        assert forall|i: int, j: int|
            0 <= i < ids.len() && 0 <= j < ids.len() && i != j implies ids[i] != ids[j] by {
            lemma_text_order(ids[i], ids[i], ids[i]);
            if i < j {
                assert(text_before(ids[i], ids[j]));
            } else {
                assert(text_before(ids[j], ids[i]));
            }
        }
    }
    lemma_projected_settles(state, ids, directory, files, contents, now);
    let after = attachments_projected(state, ids, directory, files, contents, now)->Ok_0.state;
    assert(known_attachments(after) =~= known_attachments(state));
    lemma_settled_stays(after, ids, directory, later_files, later_contents, later);
}

/// A file that is to be written is exactly what the attachment was told: its name is that of the
/// attachment's own file, and its bytes have the size and the digest of the manifest.
pub proof fn lemma_installed_matches(
    progress: Progress,
    id: Seq<char>,
    entity: EntityView,
    directory: Seq<char>,
    files: Map<Seq<char>, u64>,
    contents: Map<Seq<char>, Seq<u8>>,
    now: i64,
)
    requires
        attachment_step(progress, id, entity, directory, files, contents, now) matches Ok(after)
            && after.installed.len() > progress.installed.len(),
    ensures
        ({
            let after = attachment_step(
                progress,
                id,
                entity,
                directory,
                files,
                contents,
                now,
            )->Ok_0;
            let told = wanted(entity)->0;
            let manifest = told.manifest.manifest()->0;
            let file = after.installed.last();
            &&& entity.deleted_at is None
            &&& wanted(entity) is Some
            &&& told.manifest.manifest() is Some
            &&& after.installed == progress.installed.push(file)
            &&& file.path == target_path(directory, id, told.name)
            &&& file.bytes.len() == told.size
            &&& hex_of(sha256(file.bytes)) == manifest.file_sha256
            &&& after.state.attachments[id].stored_path == file.path
            &&& after.state.attachments[id].size == file.bytes.len()
        }),
{
}

proof fn lemma_filter_letters(text: Seq<char>, letters: Seq<char>)
    requires
        letters == text.filter(|character: char| plain_letter(character)),
    ensures
        forall|i: int| 0 <= i < letters.len() ==> plain_letter(#[trigger] letters[i]),
    decreases text.len(),
{
    reveal(Seq::filter);
    if text.len() > 0 {
        let rest = text.drop_last();
        lemma_filter_letters(rest, rest.filter(|character: char| plain_letter(character)));
    }
}

proof fn lemma_cleaned_letters(extension: Seq<char>)
    ensures
        forall|i: int| 0 <= i < cleaned(extension).len() ==> #[trigger] cleaned(extension)[i] != '/',
{
    let letters = extension.filter(|character: char| plain_letter(character));
    lemma_filter_letters(extension, letters);
}

proof fn lemma_identifier_letters(id: Seq<char>)
    requires
        uuid_text(id),
    ensures
        id.len() >= 32,
        forall|i: int| 0 <= i < id.len() ==> #[trigger] id[i] != '/',
{
    reveal_strlit("urn:uuid:");
    assert forall|i: int| 0 <= i < id.len() implies #[trigger] id[i] != '/' by {
        if id.len() == 38 {
            let inner = id.subrange(1, 37);
            if 1 <= i < 37 {
                assert(id[i] == inner[i - 1]);
            }
        } else if id.len() == 45 {
            if i < 9 {
                assert(id[i] == id.take(9)[i]);
            } else {
                assert(id[i] == id.skip(9)[i - 9]);
            }
        }
    }
}

/// A name that another device gives is never a destination: whatever the name, the file of an
/// attachment stands directly in the directory of attachments, under a name that begins with the
/// identifier.
pub proof fn lemma_target_in_directory(directory: Seq<char>, id: Seq<char>, name: Seq<char>)
    requires
        uuid_text(id),
    ensures
        components(target_path(directory, id, name)) == components(directory).push(
            stored_name(id, name),
        ),
        lies_in(target_path(directory, id, name), directory),
        stored_name(id, name).take(id.len() as int) == id,
{
    let file = stored_name(id, name);
    lemma_identifier_letters(id);
    if let Some(text) = extension(name) {
        lemma_cleaned_letters(text);
    }
    assert(file.take(id.len() as int) =~= id);
    assert forall|i: int| 0 <= i < file.len() implies #[trigger] file[i] != '/' by {
        if i > id.len() {
            assert(file[i] == cleaned(extension(name)->0)[i - id.len() - 1]);
        }
    }
    reveal_strlit(".");
    assert(file.len() > "."@.len());
    let path = target_path(directory, id, name);
    if directory.len() == 0 {
        assert(path =~= file);
        lemma_split_single(file, '/');
        lemma_split_single(directory, '/');
        lemma_parts_behind(Seq::empty(), file);
        lemma_parts_behind(Seq::empty(), directory);
        assert(Seq::<Seq<char>>::empty().push(file) =~= seq![file]);
        assert(Seq::<Seq<char>>::empty().push(directory) =~= seq![directory]);
        assert(directory != "."@);
        reveal(Seq::filter);
        assert(named_parts(Seq::empty()) =~= Seq::empty());
    } else {
        let front = if directory.last() == '/' {
            directory.drop_last()
        } else {
            directory
        };
        let before = split(front, '/');
        assert(path =~= front + seq!['/'] + file);
        lemma_split_behind(front, '/', file);
        lemma_parts_behind(before, file);
        if directory.last() == '/' {
            assert(directory =~= front + seq!['/'] + Seq::empty());
            lemma_split_behind(front, '/', Seq::empty());
            lemma_parts_behind(before, Seq::empty());
        }
        assert(before.len() > 0);
        assert(split(path, '/')[0] == before[0]);
        assert(split(directory, '/')[0] == before[0]);
        assert(path[0] == directory[0]);
    }
    assert(components(path) =~= components(directory).push(file));
}

proof fn lemma_parts_behind(parts: Seq<Seq<char>>, part: Seq<char>)
    ensures
        named_parts(parts.push(part)) == if part.len() > 0 && part != "."@ {
            named_parts(parts).push(part)
        } else {
            named_parts(parts)
        },
{
    reveal(Seq::filter);
    assert(parts.push(part).drop_last() =~= parts);
}

/// Showing attachments keeps it so that an attachment hangs only on an item that is shown.
pub proof fn lemma_projection_keeps_places(
    state: ReplicaView,
    ids: Seq<Seq<char>>,
    directory: Seq<char>,
    files: Map<Seq<char>, u64>,
    contents: Map<Seq<char>, Seq<u8>>,
    now: i64,
)
    requires
        places_shown(state),
    ensures
        attachments_projected(state, ids, directory, files, contents, now) matches Ok(after)
            ==> places_shown(after.state) && after.state.items == state.items
            && after.state.sections == state.sections,
    decreases ids.len(),
{
    if ids.len() > 0 {
        lemma_projection_keeps_places(state, ids.drop_last(), directory, files, contents, now);
    }
}

/// The two copies say the same of an attachment, and of what decides whether it is shown.
spec fn alike_for(a: ReplicaView, b: ReplicaView, id: Seq<char>) -> bool {
    &&& a.items == b.items
    &&& a.chunks == b.chunks
    &&& a.attachments.contains_key(id) == b.attachments.contains_key(id)
    &&& a.attachments.contains_key(id) ==> a.attachments[id] == b.attachments[id]
    &&& a.shadows.contains_key((EntityKind::Attachment, id)) == b.shadows.contains_key(
        (EntityKind::Attachment, id),
    )
    &&& a.shadows.contains_key((EntityKind::Attachment, id)) ==> a.shadows[(
        EntityKind::Attachment,
        id,
    )] == b.shadows[(EntityKind::Attachment, id)]
}

proof fn lemma_others_stay(
    state: ReplicaView,
    ids: Seq<Seq<char>>,
    directory: Seq<char>,
    files: Map<Seq<char>, u64>,
    contents: Map<Seq<char>, Seq<u8>>,
    now: i64,
    id: Seq<char>,
)
    requires
        !ids.contains(id),
    ensures
        attachments_projected(state, ids, directory, files, contents, now) matches Ok(after)
            ==> alike_for(state, after.state, id),
    decreases ids.len(),
{
    if ids.len() > 0 {
        let shorter = ids.drop_last();
        if shorter.contains(id) {
            assert(ids[shorter.index_of(id)] == id);
        }
        assert(ids[ids.len() - 1] != id);
        lemma_others_stay(state, shorter, directory, files, contents, now, id);
    }
}

proof fn lemma_pieces_at_hand(chunks: Seq<ChunkView>, contents: Map<Seq<char>, Seq<u8>>)
    requires
        forall|i: int|
            0 <= i < chunks.len() ==> contents.contains_key((#[trigger] chunks[i]).sha256),
    ensures
        pieces_fault(chunks, contents) != Some(StoreError::MissingContent),
    decreases chunks.len(),
{
    if chunks.len() > 0 {
        let shorter = chunks.drop_last();
        assert forall|i: int| 0 <= i < shorter.len() implies contents.contains_key(
            (#[trigger] shorter[i]).sha256,
        ) by {
            assert(shorter[i] == chunks[i]);
        }
        lemma_pieces_at_hand(shorter, contents);
        assert(contents.contains_key(chunks[chunks.len() - 1].sha256));
    }
}

/// The chunks that are wanted suffice: with their contents at hand, none is missing.
pub proof fn lemma_wanted_chunks_suffice(
    state: ReplicaView,
    ids: Seq<Seq<char>>,
    directory: Seq<char>,
    files: Map<Seq<char>, u64>,
    contents: Map<Seq<char>, Seq<u8>>,
    now: i64,
)
    requires
        ids.no_duplicates(),
        forall|hash: Seq<char>| #[trigger]
            needs_of(state, ids, directory, files).contains(hash) ==> contents.contains_key(hash),
    ensures
        attachments_projected(state, ids, directory, files, contents, now) != Err::<
            Progress,
            StoreError,
        >(StoreError::MissingContent),
    decreases ids.len(),
{
    if ids.len() > 0 {
        let shorter = ids.drop_last();
        let id = ids.last();
        let earlier = needs_of(state, shorter, directory, files);
        let entity = state.entities[(EntityKind::Attachment, id)];
        let more = attachment_needs(state, id, entity, directory, files);
        let all = needs_of(state, ids, directory, files);
        assert(all == earlier + more);
        assert forall|hash: Seq<char>| #[trigger] earlier.contains(
            hash,
        ) implies contents.contains_key(hash) by {
            assert(all[earlier.index_of(hash)] == hash);
            assert(all.contains(hash));
        }
        assert forall|i: int, j: int|
            0 <= i < shorter.len() && 0 <= j < shorter.len() && i != j implies shorter[i]
            != shorter[j] by {
            assert(ids[i] != ids[j]);
        }
        lemma_wanted_chunks_suffice(state, shorter, directory, files, contents, now);
        assert(!shorter.contains(id)) by {
            if shorter.contains(id) {
                assert(ids[shorter.index_of(id)] != ids[ids.len() - 1]);
            }
        }
        lemma_others_stay(state, shorter, directory, files, contents, now, id);
        if let Ok(progress) = attachments_projected(
            state,
            shorter,
            directory,
            files,
            contents,
            now,
        ) {
            assert(verdict(progress.state, id, entity, directory, files) == verdict(
                state,
                id,
                entity,
                directory,
                files,
            ));
            if let Ok(Verdict::Install { told, manifest }) = verdict(
                state,
                id,
                entity,
                directory,
                files,
            ) {
                assert forall|i: int|
                    0 <= i < manifest.chunks.len() implies contents.contains_key(
                    (#[trigger] manifest.chunks[i]).sha256,
                ) by {
                    assert(more[i] == manifest.chunks[i].sha256);
                    assert(all[earlier.len() + i] == more[i]);
                    assert(all.contains(more[i]));
                }
                lemma_pieces_at_hand(manifest.chunks, contents);
            }
        }
    }
}

} // verus!
