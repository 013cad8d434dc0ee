//! The forms in which texts, files and rows are kept: what they keep of what they are made of.

use vstd::prelude::*;
use vstd::string::*;

use crate::crypto::{chacha_sealed, seals, EnvelopeView};
use crate::encoding::{base64, base64url};
use crate::entries::{media_type_of, preview_of};
use crate::export::export_name_of;
use crate::notebook::{ListRow, NoteFile, NoteRow};
use crate::store::{AttachmentRow, ItemRow, SectionRow};
use crate::text::{
    ascii_lower, ascii_lowercase, decimal, lemma_decimal, whitespace,
};

verus! {

/// Blanks, tabs and the ends of lines are white space; letters, digits and signs are not.
pub proof fn lemma_white_space(character: char)
    ensures
        character == ' ' || character == '\t' || character == '\n' || character == '\r'
            ==> whitespace(character),
        '!' <= character <= '~' ==> !whitespace(character),
{
}

/// Capital letters are made small, and nothing else changes.
pub proof fn lemma_small_letters(text: Seq<char>)
    ensures
        ascii_lowercase(text).len() == text.len(),
        forall|i: int|
            0 <= i < text.len() ==> if 'A' <= #[trigger] text[i] <= 'Z' {
                ascii_lowercase(text)[i] as u32 == text[i] as u32 + 32
            } else {
                ascii_lowercase(text)[i] == text[i]
            },
{
    assert forall|i: int| 0 <= i < text.len() implies if 'A' <= #[trigger] text[i] <= 'Z' {
        ascii_lowercase(text)[i] as u32 == text[i] as u32 + 32
    } else {
        ascii_lowercase(text)[i] == text[i]
    } by {
        assert(ascii_lowercase(text)[i] == ascii_lower(text[i]));
    }
}

/// Exports that follow one another have different names.
pub proof fn lemma_export_names_apart(a: u64, b: u64)
    requires
        export_name_of(a) == export_name_of(b),
    ensures
        a == b,
{
    reveal_strlit("clippy-export.md");
    reveal_strlit("clippy-export-");
    reveal_strlit(".md");
    lemma_decimal(a as nat);
    lemma_decimal(b as nat);
    let first = decimal(a as nat);
    let second = decimal(b as nat);
    let head = "clippy-export-"@;
    if a == 0 && b != 0 {
        assert(export_name_of(a)[13] == '.');
        assert(export_name_of(b)[13] == '-');
    } else if a != 0 && b == 0 {
        assert(export_name_of(b)[13] == '.');
        assert(export_name_of(a)[13] == '-');
    } else if a != 0 && b != 0 {
        let x = export_name_of(a);
        let y = export_name_of(b);
        assert(x.len() == 14 + first.len() + 3);
        assert(y.len() == 14 + second.len() + 3);
        assert(first.len() == second.len());
        assert(x.subrange(14, 14 + first.len() as int) =~= first);
        assert(y.subrange(14, 14 + second.len() as int) =~= second);
    }
}

/// The extensions that are known, each with the kind of content that it stands for.
pub open spec fn known_types() -> Seq<(Seq<char>, Seq<char>)> {
    seq![
        ("png"@, "image/png"@),
        ("jpg"@, "image/jpeg"@),
        ("jpeg"@, "image/jpeg"@),
        ("gif"@, "image/gif"@),
        ("webp"@, "image/webp"@),
        ("avif"@, "image/avif"@),
        ("bmp"@, "image/bmp"@),
        ("svg"@, "image/svg+xml"@),
        ("pdf"@, "application/pdf"@),
        ("md"@, "text/markdown"@),
        ("markdown"@, "text/markdown"@),
        ("txt"@, "text/plain"@),
        ("log"@, "text/plain"@),
        ("csv"@, "text/csv"@),
        ("json"@, "application/json"@),
        ("html"@, "text/html"@),
        ("htm"@, "text/html"@),
        ("css"@, "text/css"@),
        ("js"@, "text/javascript"@),
        ("mjs"@, "text/javascript"@),
        ("cjs"@, "text/javascript"@),
        ("ts"@, "text/typescript"@),
        ("tsx"@, "text/typescript"@),
        ("doc"@, "application/msword"@),
        ("docx"@, "application/vnd.openxmlformats-officedocument.wordprocessingml.document"@),
        ("xls"@, "application/vnd.ms-excel"@),
        ("xlsx"@, "application/vnd.openxmlformats-officedocument.spreadsheetml.sheet"@),
        ("ppt"@, "application/vnd.ms-powerpoint"@),
        ("pptx"@, "application/vnd.openxmlformats-officedocument.presentationml.presentation"@),
        ("zip"@, "application/zip"@),
        ("mp3"@, "audio/mpeg"@),
        ("wav"@, "audio/wav"@),
        ("mp4"@, "video/mp4"@),
        ("mov"@, "video/quicktime"@),
    ]
}

/// The kind of content that an extension stands for is a known one of that extension; an extension
/// that is not known stands for bytes.
pub proof fn lemma_media_types(extension: Seq<char>)
    ensures
        media_type_of(extension) == "application/octet-stream"@ || exists|i: int|
            0 <= i < known_types().len() && #[trigger] known_types()[i] == (
                extension,
                media_type_of(extension),
            ),
        (forall|i: int|
            0 <= i < known_types().len() ==> (#[trigger] known_types()[i]).0 != extension)
            ==> media_type_of(extension) == "application/octet-stream"@,
        media_type_of(extension) == "application/octet-stream"@ ==> forall|i: int|
            0 <= i < known_types().len() ==> (#[trigger] known_types()[i]).0 != extension,
{
    reveal_strlit("application/octet-stream");
    reveal_strlit("image/png");
    reveal_strlit("image/jpeg");
    reveal_strlit("image/gif");
    reveal_strlit("image/webp");
    reveal_strlit("image/avif");
    reveal_strlit("image/bmp");
    reveal_strlit("image/svg+xml");
    reveal_strlit("application/pdf");
    reveal_strlit("text/markdown");
    reveal_strlit("text/plain");
    reveal_strlit("text/csv");
    reveal_strlit("application/json");
    reveal_strlit("text/html");
    reveal_strlit("text/css");
    reveal_strlit("text/javascript");
    reveal_strlit("text/typescript");
    reveal_strlit("application/msword");
    reveal_strlit("application/vnd.openxmlformats-officedocument.wordprocessingml.document");
    reveal_strlit("application/vnd.ms-excel");
    reveal_strlit("application/vnd.openxmlformats-officedocument.spreadsheetml.sheet");
    reveal_strlit("application/vnd.ms-powerpoint");
    reveal_strlit("application/vnd.openxmlformats-officedocument.presentationml.presentation");
    reveal_strlit("application/zip");
    reveal_strlit("audio/mpeg");
    reveal_strlit("audio/wav");
    reveal_strlit("video/mp4");
    reveal_strlit("video/quicktime");
    assert("application/octet-stream"@[0] == 'a');
    assert("application/octet-stream"@[1] == 'p');
    assert("application/octet-stream"@[12] == 'o');
    assert("image/png"@[0] == 'i');
    assert("image/jpeg"@[0] == 'i');
    assert("image/gif"@[0] == 'i');
    assert("image/webp"@[0] == 'i');
    assert("image/avif"@[0] == 'i');
    assert("image/bmp"@[0] == 'i');
    assert("image/svg+xml"@[0] == 'i');
    assert("application/pdf"@[12] == 'p');
    assert("text/markdown"@[0] == 't');
    assert("text/plain"@[0] == 't');
    assert("text/csv"@[0] == 't');
    assert("application/json"@[12] == 'j');
    assert("text/html"@[0] == 't');
    assert("text/css"@[0] == 't');
    assert("text/javascript"@[0] == 't');
    assert("text/typescript"@[0] == 't');
    assert("application/msword"@[12] == 'm');
    assert("application/vnd.openxmlformats-officedocument.wordprocessingml.document"@[12] == 'v');
    assert("application/vnd.ms-excel"@[12] == 'v');
    assert("application/vnd.openxmlformats-officedocument.spreadsheetml.sheet"@[12] == 'v');
    assert("application/vnd.ms-powerpoint"@[12] == 'v');
    assert("application/vnd.openxmlformats-officedocument.presentationml.presentation"@[12] == 'v');
    assert("application/zip"@[12] == 'z');
    assert("audio/mpeg"@[1] == 'u');
    assert("audio/wav"@[1] == 'u');
    assert("video/mp4"@[0] == 'v');
    assert("video/quicktime"@[0] == 'v');
    let known = known_types();
    assert(known[0].0 == "png"@);
    assert(known[1].0 == "jpg"@);
    assert(known[2].0 == "jpeg"@);
    assert(known[3].0 == "gif"@);
    assert(known[4].0 == "webp"@);
    assert(known[5].0 == "avif"@);
    assert(known[6].0 == "bmp"@);
    assert(known[7].0 == "svg"@);
    assert(known[8].0 == "pdf"@);
    assert(known[9].0 == "md"@);
    assert(known[10].0 == "markdown"@);
    assert(known[11].0 == "txt"@);
    assert(known[12].0 == "log"@);
    assert(known[13].0 == "csv"@);
    assert(known[14].0 == "json"@);
    assert(known[15].0 == "html"@);
    assert(known[16].0 == "htm"@);
    assert(known[17].0 == "css"@);
    assert(known[18].0 == "js"@);
    assert(known[19].0 == "mjs"@);
    assert(known[20].0 == "cjs"@);
    assert(known[21].0 == "ts"@);
    assert(known[22].0 == "tsx"@);
    assert(known[23].0 == "doc"@);
    assert(known[24].0 == "docx"@);
    assert(known[25].0 == "xls"@);
    assert(known[26].0 == "xlsx"@);
    assert(known[27].0 == "ppt"@);
    assert(known[28].0 == "pptx"@);
    assert(known[29].0 == "zip"@);
    assert(known[30].0 == "mp3"@);
    assert(known[31].0 == "wav"@);
    assert(known[32].0 == "mp4"@);
    assert(known[33].0 == "mov"@);
}

/// A preview is made of an image of eight mebibytes at most, and of nothing else; it holds all of the
/// image.
pub proof fn lemma_preview(media_type: Seq<char>, size: u64, content: Option<Seq<u8>>)
    ensures
        preview_of(media_type, size, content) matches Some(text) ==> {
            &&& media_type.len() >= 6 && media_type.take(6) == "image/"@
            &&& size <= 8_388_608
            &&& content matches Some(bytes) && text == "data:"@ + media_type + ";base64,"@
                + base64(bytes)
        },
        media_type.len() >= 6 && media_type.take(6) == "image/"@ && size <= 8_388_608
            && content is Some ==> preview_of(media_type, size, content) is Some,
{
    reveal_strlit("image/");
}

/// What an envelope holds is the message, sealed under the key and with the associated data, each as
/// it was given.
pub proof fn lemma_sealed_as_given(
    envelope: EnvelopeView,
    key: Seq<u8>,
    message: Seq<u8>,
    aad: Seq<u8>,
)
    requires
        seals(envelope, key, message, aad),
    ensures
        exists|nonce: Seq<u8>|
            nonce.len() == 12 && envelope.nonce == base64url(nonce) && (#[trigger] chacha_sealed(
                key,
                nonce,
                message,
                aad,
            ) matches Some(body) && envelope.ciphertext == base64url(body)),
{
    let nonce = choose|nonce: Seq<u8>| #[trigger]
        crate::crypto::seals_with(envelope, key, message, aad, nonce);
    assert(chacha_sealed(key, nonce, message, aad) is Some);
}

/// What is said of a row is all that the row holds.
pub proof fn lemma_rows_say_all(
    list: ListRow,
    note: NoteRow,
    file: NoteFile,
    section: SectionRow,
    item: ItemRow,
    attachment: AttachmentRow,
)
    ensures
        list@.id == list.id && list@.name == list.name@ && list@.created_at == list.created_at,
        note@.id == note.id && note@.list == note.section_id && note@.content == note.content@
            && note@.done == note.done && note@.created_at == note.created_at && note@.updated_at
            == note.updated_at,
        file@.id == file.id && file@.note == file.item_id && file@.name == file.name@ && file@.path
            == file.stored_path@ && file@.media_type == file.media_type@ && file@.size == file.size
            && file@.created_at == file.created_at,
        section@.name == section.name@ && section@.created_at == section.created_at
            && section@.sort_bits == section.sort_bits,
        item@.content == item.content@ && item@.done == item.done && item@.created_at
            == item.created_at && item@.updated_at == item.updated_at,
        item.section matches Some(list) ==> item@.section == Some(list@),
        item.section is None ==> item@.section is None,
        attachment@.item == attachment.item@ && attachment@.name == attachment.name@
            && attachment@.stored_path == attachment.stored_path@ && attachment@.media_type
            == attachment.media_type@ && attachment@.size == attachment.size
            && attachment@.created_at == attachment.created_at,
{
}

} // verus!
