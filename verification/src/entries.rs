//! New entries: the files that come with them, and where both go.

use vstd::prelude::*;
use vstd::string::*;

use crate::attachments::{
    extension, extension_of, name_in, path_in, stored_file_name, stored_name,
};
use crate::encoding::{base64, standard_encode};
use crate::limits::MAX_ATTACHMENT_BYTES;
use crate::notebook::{
    entry_list_name, file_ids, item_content, largest, largest_id, list_named, list_opened,
    name_fault, note_fault, note_ids, section_name, CommandError, NoteFile, NoteFileView, NoteRow,
    NoteView, Notebook, NotebookView,
};
use crate::plain::{opt_view, views, Plain};
use crate::text::{
    ascii_lowercase, decimal, decimal_text, has_prefix, signed_decimal, signed_text, starts_with,
    text_eq, to_lowercase_ascii, trim, trimmed,
};

verus! {

/// The largest image that a preview is made of: 8 MiB.
pub const MAX_PREVIEW_BYTES: u64 = 8_388_608;

/// The largest image that can be pasted: 64 MiB.
pub const MAX_PASTED_IMAGE_BYTES: usize = 67_108_864;

/// A file that is to be attached.
#[derive(Debug, Clone, PartialEq, Eq)]
pub struct AttachmentCandidate {
    pub path: String,
    pub name: String,
    pub media_type: String,
    pub size: i64,
    pub preview: Option<String>,
    pub temporary: bool,
}

/// A file that is to be attached.
pub struct CandidateView {
    pub path: Seq<char>,
    pub name: Seq<char>,
    pub media_type: Seq<char>,
    pub size: i64,
    pub preview: Option<Seq<char>>,
    pub temporary: bool,
}

impl View for AttachmentCandidate {
    type V = CandidateView;

    open spec fn view(&self) -> CandidateView {
        CandidateView {
            path: self.path@,
            name: self.name@,
            media_type: self.media_type@,
            size: self.size,
            preview: opt_view(self.preview),
            temporary: self.temporary,
        }
    }
}

/// What the file system tells of a path.
#[derive(Debug, Clone, PartialEq, Eq)]
pub struct FileFacts {
    /// The path in canonical form.
    pub path: String,
    pub is_file: bool,
    pub size: u64,
    /// The last name of the path, where it is text.
    pub name: Option<String>,
    /// What is in the file, where it was read.
    pub content: Option<Vec<u8>>,
}

/// What the file system tells of a path.
pub struct FactsView {
    pub path: Seq<char>,
    pub is_file: bool,
    pub size: u64,
    pub name: Option<Seq<char>>,
    pub content: Option<Seq<u8>>,
}

impl View for FileFacts {
    type V = FactsView;

    open spec fn view(&self) -> FactsView {
        FactsView {
            path: self.path@,
            is_file: self.is_file,
            size: self.size,
            name: opt_view(self.name),
            content: match self.content {
                Some(bytes) => Some(bytes@),
                None => None,
            },
        }
    }
}

/// The kind of content that a small extension stands for.
pub open spec fn media_type_of(extension: Seq<char>) -> Seq<char> {
    if extension == "png"@ {
        "image/png"@
    } else if extension == "jpg"@ || extension == "jpeg"@ {
        "image/jpeg"@
    } else if extension == "gif"@ {
        "image/gif"@
    } else if extension == "webp"@ {
        "image/webp"@
    } else if extension == "avif"@ {
        "image/avif"@
    } else if extension == "bmp"@ {
        "image/bmp"@
    } else if extension == "svg"@ {
        "image/svg+xml"@
    } else if extension == "pdf"@ {
        "application/pdf"@
    } else if extension == "md"@ || extension == "markdown"@ {
        "text/markdown"@
    } else if extension == "txt"@ || extension == "log"@ {
        "text/plain"@
    } else if extension == "csv"@ {
        "text/csv"@
    } else if extension == "json"@ {
        "application/json"@
    } else if extension == "html"@ || extension == "htm"@ {
        "text/html"@
    } else if extension == "css"@ {
        "text/css"@
    } else if extension == "js"@ || extension == "mjs"@ || extension == "cjs"@ {
        "text/javascript"@
    } else if extension == "ts"@ || extension == "tsx"@ {
        "text/typescript"@
    } else if extension == "doc"@ {
        "application/msword"@
    } else if extension == "docx"@ {
        "application/vnd.openxmlformats-officedocument.wordprocessingml.document"@
    } else if extension == "xls"@ {
        "application/vnd.ms-excel"@
    } else if extension == "xlsx"@ {
        "application/vnd.openxmlformats-officedocument.spreadsheetml.sheet"@
    } else if extension == "ppt"@ {
        "application/vnd.ms-powerpoint"@
    } else if extension == "pptx"@ {
        "application/vnd.openxmlformats-officedocument.presentationml.presentation"@
    } else if extension == "zip"@ {
        "application/zip"@
    } else if extension == "mp3"@ {
        "audio/mpeg"@
    } else if extension == "wav"@ {
        "audio/wav"@
    } else if extension == "mp4"@ {
        "video/mp4"@
    } else if extension == "mov"@ {
        "video/quicktime"@
    } else {
        "application/octet-stream"@
    }
}

fn media_type_name(extension: &str) -> (name: &'static str)
    ensures
        name@ == media_type_of(extension@),
{
    if text_eq(extension, "png") {
        "image/png"
    } else if text_eq(extension, "jpg") || text_eq(extension, "jpeg") {
        "image/jpeg"
    } else if text_eq(extension, "gif") {
        "image/gif"
    } else if text_eq(extension, "webp") {
        "image/webp"
    } else if text_eq(extension, "avif") {
        "image/avif"
    } else if text_eq(extension, "bmp") {
        "image/bmp"
    } else if text_eq(extension, "svg") {
        "image/svg+xml"
    } else if text_eq(extension, "pdf") {
        "application/pdf"
    } else if text_eq(extension, "md") || text_eq(extension, "markdown") {
        "text/markdown"
    } else if text_eq(extension, "txt") || text_eq(extension, "log") {
        "text/plain"
    } else if text_eq(extension, "csv") {
        "text/csv"
    } else if text_eq(extension, "json") {
        "application/json"
    } else if text_eq(extension, "html") || text_eq(extension, "htm") {
        "text/html"
    } else if text_eq(extension, "css") {
        "text/css"
    } else if text_eq(extension, "js") || text_eq(extension, "mjs") || text_eq(extension, "cjs") {
        "text/javascript"
    } else if text_eq(extension, "ts") || text_eq(extension, "tsx") {
        "text/typescript"
    } else if text_eq(extension, "doc") {
        "application/msword"
    } else if text_eq(extension, "docx") {
        "application/vnd.openxmlformats-officedocument.wordprocessingml.document"
    } else if text_eq(extension, "xls") {
        "application/vnd.ms-excel"
    } else if text_eq(extension, "xlsx") {
        "application/vnd.openxmlformats-officedocument.spreadsheetml.sheet"
    } else if text_eq(extension, "ppt") {
        "application/vnd.ms-powerpoint"
    } else if text_eq(extension, "pptx") {
        "application/vnd.openxmlformats-officedocument.presentationml.presentation"
    } else if text_eq(extension, "zip") {
        "application/zip"
    } else if text_eq(extension, "mp3") {
        "audio/mpeg"
    } else if text_eq(extension, "wav") {
        "audio/wav"
    } else if text_eq(extension, "mp4") {
        "video/mp4"
    } else if text_eq(extension, "mov") {
        "video/quicktime"
    } else {
        "application/octet-stream"
    }
}

/// The kind of content of a file, by its extension.
pub open spec fn path_media_type(path: Seq<char>) -> Seq<char> {
    media_type_of(
        match extension(path) {
            Some(text) => ascii_lowercase(text),
            None => Seq::empty(),
        },
    )
}

/// The kind of content of a file, by its extension.
pub fn attachment_media_type(path: &str) -> (name: &'static str)
    ensures
        name@ == path_media_type(path@),
{
    match extension_of(path) {
        Some(text) => media_type_name(to_lowercase_ascii(text.as_str()).as_str()),
        None => {
            proof {
                reveal_strlit("");
                assert(""@ =~= Seq::empty());
            }
            media_type_name("")
        },
    }
}

/// A preview is made of images that are not too large.
pub open spec fn previewed(media_type: Seq<char>, size: u64) -> bool {
    starts_with(media_type, "image/"@) && size <= MAX_PREVIEW_BYTES
}

/// Whether a preview is made of a file.
pub fn wants_preview(media_type: &str, size: u64) -> (wanted: bool)
    ensures
        wanted == previewed(media_type@, size),
{
    has_prefix(media_type, "image/") && size <= MAX_PREVIEW_BYTES
}

/// The preview of an image: all of it, in the form of an address.
pub open spec fn preview_of(media_type: Seq<char>, size: u64, content: Option<Seq<u8>>) -> Option<
    Seq<char>,
> {
    match content {
        Some(bytes) => if previewed(media_type, size) {
            Some("data:"@ + media_type + ";base64,"@ + base64(bytes))
        } else {
            None
        },
        None => None,
    }
}

/// The preview of an image.
pub fn attachment_preview(media_type: &str, size: u64, content: &Option<Vec<u8>>) -> (preview: Option<
    String,
>)
    ensures
        opt_view(preview) == preview_of(
            media_type@,
            size,
            match content {
                Some(bytes) => Some(bytes@),
                None => None,
            },
        ),
{
    match content {
        Some(bytes) => {
            if !wants_preview(media_type, size) {
                return None;
            }
            let mut text = "data:".to_owned();
            text.append(media_type);
            text.append(";base64,");
            text.append(standard_encode(bytes.as_slice()).as_str());
            Some(text)
        },
        None => None,
    }
}

/// What is made of a file, or why it is not attached.
pub open spec fn inspected(facts: FactsView) -> Result<CandidateView, CommandError> {
    if !facts.is_file {
        Err(CommandError::Folder)
    } else if facts.size > MAX_ATTACHMENT_BYTES {
        Err(CommandError::LargeFile)
    } else {
        match facts.name {
            None => Err(CommandError::NamelessFile),
            Some(name) => if name.len() == 0 {
                Err(CommandError::NamelessFile)
            } else {
                Ok(
                    CandidateView {
                        path: facts.path,
                        name,
                        media_type: path_media_type(facts.path),
                        size: facts.size as i64,
                        preview: preview_of(
                            path_media_type(facts.path),
                            facts.size,
                            facts.content,
                        ),
                        temporary: false,
                    },
                )
            },
        }
    }
}

/// A result, with what it holds.
pub open spec fn candidate_view(result: Result<AttachmentCandidate, CommandError>) -> Result<
    CandidateView,
    CommandError,
> {
    match result {
        Ok(candidate) => Ok(candidate@),
        Err(fault) => Err(fault),
    }
}

/// What is made of a file.
pub fn inspect_attachment_path(facts: &FileFacts) -> (result: Result<
    AttachmentCandidate,
    CommandError,
>)
    ensures
        candidate_view(result) == inspected(facts@),
{
    if !facts.is_file {
        return Err(CommandError::Folder);
    }
    if facts.size > MAX_ATTACHMENT_BYTES {
        return Err(CommandError::LargeFile);
    }
    let name = match &facts.name {
        None => {
            return Err(CommandError::NamelessFile);
        },
        Some(name) => {
            if name.as_str().is_empty() {
                return Err(CommandError::NamelessFile);
            }
            name.duplicate()
        },
    };
    let media_type = attachment_media_type(facts.path.as_str());
    let preview = attachment_preview(media_type, facts.size, &facts.content);
    Ok(
        AttachmentCandidate {
            path: facts.path.duplicate(),
            name,
            media_type: media_type.to_owned(),
            size: facts.size as i64,
            preview,
            temporary: false,
        },
    )
}

/// A file is among those that are to be attached.
pub open spec fn has_path(candidates: Seq<CandidateView>, path: Seq<char>) -> bool {
    exists|i: int| 0 <= i < candidates.len() && (#[trigger] candidates[i]).path == path
}

/// What is made of several files: each of them once, or the first fault.
pub open spec fn all_inspected(facts: Seq<FactsView>) -> Result<Seq<CandidateView>, CommandError>
    decreases facts.len(),
{
    if facts.len() == 0 {
        Ok(Seq::empty())
    } else {
        match all_inspected(facts.drop_last()) {
            Err(fault) => Err(fault),
            Ok(front) => match inspected(facts.last()) {
                Err(fault) => Err(fault),
                Ok(candidate) => if has_path(front, candidate.path) {
                    Ok(front)
                } else {
                    Ok(front.push(candidate))
                },
            },
        }
    }
}

fn finds_path(candidates: &[AttachmentCandidate], path: &str) -> (found: bool)
    ensures
        found == has_path(views(candidates@), path@),
{
    let ghost all = views(candidates@);
    let mut at: usize = 0;
    while at < candidates.len()
        invariant
            all == views(candidates@),
            at <= candidates.len(),
            forall|i: int| 0 <= i < at ==> (#[trigger] all[i]).path != path@,
        decreases candidates.len() - at,
    {
        assert(all[at as int] == candidates@[at as int]@);
        if text_eq(candidates[at].path.as_str(), path) {
            return true;
        }
        at = at + 1;
    }
    false
}

proof fn lemma_fault_stays(facts: Seq<FactsView>, end: int)
    requires
        0 <= end <= facts.len(),
        all_inspected(facts.take(end)) is Err,
    ensures
        all_inspected(facts) == all_inspected(facts.take(end)),
    decreases facts.len() - end,
{
    if end == facts.len() {
        assert(facts.take(end) =~= facts);
    } else {
        assert(facts.take(end + 1).drop_last() =~= facts.take(end));
        lemma_fault_stays(facts, end + 1);
    }
}

/// What is made of several files. There may be so many at most.
pub fn inspect_attachment_paths(facts: &[FileFacts], most: usize) -> (result: Result<
    Vec<AttachmentCandidate>,
    CommandError,
>)
    ensures
        if facts@.len() > most {
            result == Err::<Vec<AttachmentCandidate>, CommandError>(CommandError::TooManyFiles)
        } else {
            match all_inspected(views(facts@)) {
                Ok(candidates) => result matches Ok(found) && views(found@) == candidates,
                Err(fault) => result == Err::<Vec<AttachmentCandidate>, CommandError>(fault),
            }
        },
{
    if facts.len() > most {
        return Err(CommandError::TooManyFiles);
    }
    let ghost all = views(facts@);
    let mut candidates: Vec<AttachmentCandidate> = Vec::new();
    let mut at: usize = 0;
    assert(views(candidates@) =~= Seq::empty());
    while at < facts.len()
        invariant
            facts@.len() <= most,
            all == views(facts@),
            at <= facts.len(),
            all_inspected(all.take(at as int)) == Ok::<Seq<CandidateView>, CommandError>(
                views(candidates@),
            ),
        decreases facts.len() - at,
    {
        let ghost next = all.take(at + 1);
        proof {
            assert(next.drop_last() =~= all.take(at as int));
            assert(next.last() == facts@[at as int]@);
            if all_inspected(next) is Err {
                lemma_fault_stays(all, at + 1);
            }
        }
        match inspect_attachment_path(&facts[at]) {
            Err(fault) => {
                return Err(fault);
            },
            Ok(candidate) => {
                if !finds_path(candidates.as_slice(), candidate.path.as_str()) {
                    let ghost held = views(candidates@);
                    let ghost added = candidate@;
                    candidates.push(candidate);
                    assert(views(candidates@) =~= held.push(added));
                }
            },
        }
        at = at + 1;
    }
    assert(all.take(at as int) =~= all);
    Ok(candidates)
}

/// Where the copy of an attached file is kept.
pub open spec fn copy_path(
    directory: Seq<char>,
    note: i64,
    now: i64,
    index: int,
    source: Seq<char>,
) -> Seq<char> {
    path_in(
        directory,
        stored_name(
            signed_decimal(note as int) + "-"@ + signed_decimal(now as int) + "-"@ + decimal(
                index as nat,
            ),
            source,
        ),
    )
}

/// Where the copy of an attached file is kept.
pub fn stored_attachment_path(
    attachments_dir: &str,
    item_id: i64,
    index: usize,
    source: &str,
    now: i64,
) -> (path: String)
    ensures
        path@ == copy_path(attachments_dir@, item_id, now, index as int, source@),
{
    let mut stem = signed_text(item_id);
    stem.append("-");
    stem.append(signed_text(now).as_str());
    stem.append("-");
    stem.append(decimal_text(index as u64).as_str());
    name_in(attachments_dir, stored_file_name(stem.as_str(), source).as_str())
}

/// A file to be copied.
#[derive(Debug, Clone, PartialEq, Eq)]
pub struct FileCopy {
    pub source: String,
    pub target: String,
}

/// A file to be copied: from where, and where to.
pub open spec fn copy_views(copies: Seq<FileCopy>) -> Seq<(Seq<char>, Seq<char>)> {
    copies.map_values(|copy: FileCopy| (copy.source@, copy.target@))
}

/// What became of an entry.
#[derive(Debug, Clone, PartialEq, Eq)]
pub enum Entry {
    /// It opened a list.
    Opened(i64),
    /// It is a new note, and these files are to be copied for it.
    Added(i64, Vec<FileCopy>),
}

/// What became of an entry.
pub enum EntryView {
    Opened(i64),
    Added(i64, Seq<(Seq<char>, Seq<char>)>),
}

impl View for Entry {
    type V = EntryView;

    open spec fn view(&self) -> EntryView {
        match self {
            Entry::Opened(id) => EntryView::Opened(*id),
            Entry::Added(id, copies) => EntryView::Added(*id, copy_views(copies@)),
        }
    }
}

/// The row of an attached file.
pub open spec fn attached_row(
    directory: Seq<char>,
    note: i64,
    now: i64,
    first: int,
    index: int,
    candidate: CandidateView,
) -> NoteFileView {
    NoteFileView {
        id: (first + index) as i64,
        note,
        name: candidate.name,
        path: copy_path(directory, note, now, index, candidate.path),
        media_type: candidate.media_type,
        size: candidate.size,
        created_at: now,
    }
}

/// The notebook after a note was added to the open list, with files, and which of them are to be
/// copied.
pub open spec fn note_added(
    notebook: NotebookView,
    content: Seq<char>,
    candidates: Seq<CandidateView>,
    directory: Seq<char>,
    now: i64,
) -> Result<(NotebookView, i64, Seq<(Seq<char>, Seq<char>)>), CommandError> {
    let last = largest(note_ids(notebook.notes));
    let first = largest(file_ids(notebook.files)) + 1;
    if last >= i64::MAX || first - 1 + candidates.len() > i64::MAX {
        Err(CommandError::Full)
    } else {
        let id = (last + 1) as i64;
        Ok(
            (
                NotebookView {
                    notes: notebook.notes.push(
                        NoteView {
                            id,
                            list: notebook.active,
                            content,
                            done: false,
                            created_at: now,
                            updated_at: now,
                        },
                    ),
                    files: notebook.files + Seq::new(
                        candidates.len(),
                        |i: int| attached_row(directory, id, now, first, i, candidates[i]),
                    ),
                    ..notebook
                },
                id,
                Seq::new(
                    candidates.len(),
                    |i: int|
                        (candidates[i].path, copy_path(directory, id, now, i, candidates[i].path)),
                ),
            ),
        )
    }
}

/// The notebook after an entry. A text with hash signs before it opens the list of that name; any
/// other is a new note.
pub open spec fn entered(
    notebook: NotebookView,
    content: Seq<char>,
    files: Seq<FactsView>,
    most: usize,
    directory: Seq<char>,
    now: i64,
) -> Result<(NotebookView, EntryView), CommandError> {
    match note_fault(content) {
        Some(fault) => Err(fault),
        None => match list_named(trimmed(content)) {
            Some(name) => if files.len() > 0 {
                Err(CommandError::FilesOnList)
            } else {
                match name_fault(name) {
                    Some(fault) => Err(fault),
                    None => match list_opened(notebook, trimmed(name), now) {
                        Err(fault) => Err(fault),
                        Ok((state, id)) => Ok((state, EntryView::Opened(id))),
                    },
                }
            },
            None => if files.len() > most {
                Err(CommandError::TooManyFiles)
            } else {
                match all_inspected(files) {
                    Err(fault) => Err(fault),
                    Ok(candidates) => match note_added(
                        notebook,
                        trimmed(content),
                        candidates,
                        directory,
                        now,
                    ) {
                        Err(fault) => Err(fault),
                        Ok((state, id, copies)) => Ok((state, EntryView::Added(id, copies))),
                    },
                }
            },
        },
    }
}

impl Notebook {
    /// The largest identifier of a note, or zero.
    pub fn last_note(&self) -> (id: i64)
        ensures
            id == largest(note_ids(self@.notes)),
    {
        let ghost all = self@.notes;
        let mut ids: Vec<i64> = Vec::new();
        let mut at: usize = 0;
        assert(ids@ =~= note_ids(all.take(0)));
        while at < self.items.len()
            invariant
                all == views(self.items@),
                at <= self.items.len(),
                ids@ == note_ids(all.take(at as int)),
            decreases self.items.len() - at,
        {
            ids.push(self.items[at].id);
            assert(ids@ =~= note_ids(all.take(at + 1)));
            at = at + 1;
        }
        assert(all.take(at as int) =~= all);
        largest_id(ids.as_slice())
    }

    /// The largest identifier of a file, or zero.
    pub fn last_file(&self) -> (id: i64)
        ensures
            id == largest(file_ids(self@.files)),
    {
        let ghost all = self@.files;
        let mut ids: Vec<i64> = Vec::new();
        let mut at: usize = 0;
        assert(ids@ =~= file_ids(all.take(0)));
        while at < self.attachments.len()
            invariant
                all == views(self.attachments@),
                at <= self.attachments.len(),
                ids@ == file_ids(all.take(at as int)),
            decreases self.attachments.len() - at,
        {
            ids.push(self.attachments[at].id);
            assert(ids@ =~= file_ids(all.take(at + 1)));
            at = at + 1;
        }
        assert(all.take(at as int) =~= all);
        largest_id(ids.as_slice())
    }

    /// Adds a note to the open list, with files.
    pub fn insert_item(
        &mut self,
        content: String,
        candidates: &[AttachmentCandidate],
        attachments_dir: &str,
        now: i64,
    ) -> (result: Result<(i64, Vec<FileCopy>), CommandError>)
        ensures
            match note_added(
                old(self)@,
                content@,
                views(candidates@),
                attachments_dir@,
                now,
            ) {
                Err(fault) => result == Err::<(i64, Vec<FileCopy>), CommandError>(fault)
                    && final(self)@ == old(self)@,
                Ok((state, id, copies)) => final(self)@ == state && (result matches Ok((
                    added,
                    made,
                )) && added == id && copy_views(made@) == copies),
            },
    {
        let ghost before = self@;
        let ghost given = views(candidates@);
        let last = self.last_note();
        let file = self.last_file();
        proof {
            lemma_largest(note_ids(before.notes));
            lemma_largest(file_ids(before.files));
        }
        if last == i64::MAX || candidates.len() as u128 > (i64::MAX - file) as u128 {
            return Err(CommandError::Full);
        }
        let id = last + 1;
        let ghost first = file + 1;
        let ghost rows = Seq::new(
            given.len(),
            |i: int| attached_row(attachments_dir@, id, now, first, i, given[i]),
        );
        let ghost moves = Seq::new(
            given.len(),
            |i: int| (given[i].path, copy_path(attachments_dir@, id, now, i, given[i].path)),
        );
        let mut copies: Vec<FileCopy> = Vec::new();
        let mut at: usize = 0;
        assert(before.files + rows.take(0) =~= before.files);
        assert(copy_views(copies@) =~= moves.take(0));
        while at < candidates.len()
            invariant
                given == views(candidates@),
                0 <= file,
                first == file + 1,
                candidates.len() <= i64::MAX - file,
                rows == Seq::new(
                    given.len(),
                    |i: int| attached_row(attachments_dir@, id, now, first, i, given[i]),
                ),
                moves == Seq::new(
                    given.len(),
                    |i: int|
                        (given[i].path, copy_path(attachments_dir@, id, now, i, given[i].path)),
                ),
                at <= candidates.len(),
                self@.lists == before.lists,
                self@.notes == before.notes,
                self@.active == before.active,
                self@.files == before.files + rows.take(at as int),
                copy_views(copies@) == moves.take(at as int),
            decreases candidates.len() - at,
        {
            assert(given[at as int] == candidates@[at as int]@);
            let source = candidates[at].path.duplicate();
            let target = stored_attachment_path(
                attachments_dir,
                id,
                at,
                source.as_str(),
                now,
            );
            let ghost held = self@.files;
            let ghost made = copy_views(copies@);
            let ghost one = (source@, target@);
            self.attachments.push(
                NoteFile {
                    id: file + 1 + at as i64,
                    item_id: id,
                    name: candidates[at].name.duplicate(),
                    stored_path: target.duplicate(),
                    media_type: candidates[at].media_type.duplicate(),
                    size: candidates[at].size,
                    created_at: now,
                },
            );
            copies.push(FileCopy { source, target });
            proof {
                assert(self@.files =~= held.push(rows[at as int]));
                assert(self@.files =~= before.files + rows.take(at + 1));
                assert(copy_views(copies@) =~= made.push(one));
                assert(copy_views(copies@) =~= moves.take(at + 1));
            }
            at = at + 1;
        }
        let ghost text = content@;
        let list = self.active_section;
        self.items.push(
            NoteRow { id, section_id: list, content, done: false, created_at: now, updated_at: now },
        );
        proof {
            assert(rows.take(at as int) =~= rows);
            assert(moves.take(at as int) =~= moves);
            assert(self@.notes =~= before.notes.push(
                NoteView {
                    id,
                    list: before.active,
                    content: text,
                    done: false,
                    created_at: now,
                    updated_at: now,
                },
            ));
            assert(self@ =~= NotebookView {
                notes: self@.notes,
                files: before.files + rows,
                ..before
            });
        }
        Ok((id, copies))
    }

    /// Takes an entry: a text with hash signs before it opens the list of that name; any other is a
    /// new note.
    pub fn add_entry(
        &mut self,
        content: &str,
        files: &[FileFacts],
        most: usize,
        attachments_dir: &str,
        now: i64,
    ) -> (result: Result<Entry, CommandError>)
        ensures
            match entered(old(self)@, content@, views(files@), most, attachments_dir@, now) {
                Err(fault) => result == Err::<Entry, CommandError>(fault) && final(self)@ == old(
                    self,
                )@,
                Ok((state, entry)) => final(self)@ == state && (result matches Ok(made) && made@
                    == entry),
            },
    {
        let content = match item_content(content) {
            Err(fault) => {
                return Err(fault);
            },
            Ok(content) => content,
        };
        match entry_list_name(content.as_str()) {
            Some(name) => {
                if files.len() > 0 {
                    return Err(CommandError::FilesOnList);
                }
                let name = match section_name(name) {
                    Err(fault) => {
                        return Err(fault);
                    },
                    Ok(name) => name,
                };
                match self.open_list(name, now) {
                    Err(fault) => Err(fault),
                    Ok(id) => Ok(Entry::Opened(id)),
                }
            },
            None => {
                let candidates = match inspect_attachment_paths(files, most) {
                    Err(fault) => {
                        return Err(fault);
                    },
                    Ok(candidates) => candidates,
                };
                match self.insert_item(content, candidates.as_slice(), attachments_dir, now) {
                    Err(fault) => Err(fault),
                    Ok((id, copies)) => Ok(Entry::Added(id, copies)),
                }
            },
        }
    }
}

/// No identifier is larger than the largest, which is not negative.
pub proof fn lemma_largest(ids: Seq<i64>)
    ensures
        0 <= largest(ids) <= i64::MAX,
        forall|i: int| 0 <= i < ids.len() ==> #[trigger] ids[i] <= largest(ids),
    decreases ids.len(),
{
    if ids.len() > 0 {
        lemma_largest(ids.drop_last());
        assert forall|i: int| 0 <= i < ids.len() implies #[trigger] ids[i] <= largest(ids) by {
            if i < ids.len() - 1 {
                assert(ids.drop_last()[i] == ids[i]);
            }
        }
    }
}

/// The bytes of an image of so many pixels, where they are not too many.
pub open spec fn image_fits(width: int, height: int, bytes: int) -> bool {
    0 < width * height * 4 <= MAX_PASTED_IMAGE_BYTES && bytes == width * height * 4
}

/// Whether an image can be pasted: it must not be too large, and all of it must be there.
pub fn check_pasted_image(width: usize, height: usize, bytes: usize) -> (result: Result<
    (),
    CommandError,
>)
    ensures
        result == if image_fits(width as int, height as int, bytes as int) {
            Ok::<(), CommandError>(())
        } else {
            Err(CommandError::LargeImage)
        },
{
    let pixels = match width.checked_mul(height) {
        None => {
            assert(width * height * 4 >= width * height) by (nonlinear_arith)
                requires
                    width * height >= 0,
            ;
            return Err(CommandError::LargeImage);
        },
        Some(pixels) => pixels,
    };
    let expected = match pixels.checked_mul(4) {
        None => {
            return Err(CommandError::LargeImage);
        },
        Some(expected) => expected,
    };
    if expected == 0 || expected > MAX_PASTED_IMAGE_BYTES || bytes != expected {
        return Err(CommandError::LargeImage);
    }
    Ok(())
}

/// How the notebook can look.
pub fn check_theme(theme: &str) -> (result: Result<(), CommandError>)
    ensures
        result == if theme@ == "system"@ || theme@ == "light"@ || theme@ == "dark"@ || theme@
            == "glass"@ {
            Ok::<(), CommandError>(())
        } else {
            Err(CommandError::UnknownTheme)
        },
{
    if text_eq(theme, "system") || text_eq(theme, "light") || text_eq(theme, "dark") || text_eq(
        theme,
        "glass",
    ) {
        Ok(())
    } else {
        Err(CommandError::UnknownTheme)
    }
}

/// What is to be done about new shortcuts.
#[derive(Debug, Clone, PartialEq, Eq)]
pub enum ShortcutPlan {
    /// They are the ones that are set.
    Keep,
    /// They replace the ones that are set.
    Replace { show: String, capture: String },
}

/// What is to be done about new shortcuts, without the blanks around them.
pub fn plan_shortcuts(old_show: &str, old_capture: &str, show: &str, capture: &str) -> (plan: ShortcutPlan)
    ensures
        if old_show@ == trimmed(show@) && old_capture@ == trimmed(capture@) {
            plan is Keep
        } else {
            plan matches ShortcutPlan::Replace { show: new_show, capture: new_capture } && new_show@
                == trimmed(show@) && new_capture@ == trimmed(capture@)
        },
{
    let show = trim(show);
    let capture = trim(capture);
    if text_eq(old_show, show.as_str()) && text_eq(old_capture, capture.as_str()) {
        ShortcutPlan::Keep
    } else {
        ShortcutPlan::Replace { show, capture }
    }
}

} // verus!
