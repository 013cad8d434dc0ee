//! The notebook on this device: its lists, its notes and the files attached to them, and what can
//! be done with them.

use vstd::prelude::*;
use vstd::string::*;

use crate::limits::{MAX_ITEM_CHARS, MAX_SECTION_CHARS};
use crate::plain::{opt_view, views, Plain};
use crate::text::{
    after_prefix, ascii_lowercase, chars_of, contains_char, starts_with, text_eq,
    to_lowercase_ascii, trim, trimmed,
};

verus! {

/// Why something is not done.
#[derive(Debug, Clone, Copy, PartialEq, Eq, Structural)]
pub enum CommandError {
    EmptyNote,
    LongNote,
    EmptyName,
    LongName,
    /// The name of a list does not fit on one line.
    BrokenName,
    TooManyItems,
    InvalidItem,
    InvalidList,
    MissingNote,
    MissingList,
    NameTaken,
    /// Fewer than two notes cannot be merged.
    TooFewItems,
    /// The merged note would be too long.
    LongMerge,
    /// A list cannot be made with files attached.
    FilesOnList,
    TooManyFiles,
    Folder,
    LargeFile,
    NamelessFile,
    UnknownTheme,
    LargeImage,
    /// There is no identifier left.
    Full,
}

/// A list.
#[derive(Debug, Clone, PartialEq, Eq)]
pub struct ListRow {
    pub id: i64,
    pub name: String,
    pub created_at: i64,
}

/// A list.
pub struct ListView {
    pub id: i64,
    pub name: Seq<char>,
    pub created_at: i64,
}

impl View for ListRow {
    type V = ListView;

    open spec fn view(&self) -> ListView {
        ListView { id: self.id, name: self.name@, created_at: self.created_at }
    }
}

impl Plain for ListRow {
    fn duplicate(&self) -> (copy: Self) {
        ListRow { id: self.id, name: self.name.duplicate(), created_at: self.created_at }
    }

    fn same(&self, other: &Self) -> (equal: bool) {
        self.id == other.id && self.name.same(&other.name) && self.created_at == other.created_at
    }
}

/// A note. One that is on no list is in the inbox.
#[derive(Debug, Clone, PartialEq, Eq)]
pub struct NoteRow {
    pub id: i64,
    pub section_id: Option<i64>,
    pub content: String,
    pub done: bool,
    pub created_at: i64,
    pub updated_at: i64,
}

/// A note.
pub struct NoteView {
    pub id: i64,
    pub list: Option<i64>,
    pub content: Seq<char>,
    pub done: bool,
    pub created_at: i64,
    pub updated_at: i64,
}

impl View for NoteRow {
    type V = NoteView;

    open spec fn view(&self) -> NoteView {
        NoteView {
            id: self.id,
            list: self.section_id,
            content: self.content@,
            done: self.done,
            created_at: self.created_at,
            updated_at: self.updated_at,
        }
    }
}

impl Plain for NoteRow {
    fn duplicate(&self) -> (copy: Self) {
        NoteRow {
            id: self.id,
            section_id: self.section_id,
            content: self.content.duplicate(),
            done: self.done,
            created_at: self.created_at,
            updated_at: self.updated_at,
        }
    }

    fn same(&self, other: &Self) -> (equal: bool) {
        self.id == other.id && self.section_id == other.section_id && self.content.same(
            &other.content,
        ) && self.done == other.done && self.created_at == other.created_at && self.updated_at
            == other.updated_at
    }
}

/// A file that is attached to a note.
#[derive(Debug, Clone, PartialEq, Eq)]
pub struct NoteFile {
    pub id: i64,
    pub item_id: i64,
    pub name: String,
    pub stored_path: String,
    pub media_type: String,
    pub size: i64,
    pub created_at: i64,
}

/// A file that is attached to a note.
pub struct NoteFileView {
    pub id: i64,
    pub note: i64,
    pub name: Seq<char>,
    pub path: Seq<char>,
    pub media_type: Seq<char>,
    pub size: i64,
    pub created_at: i64,
}

impl View for NoteFile {
    type V = NoteFileView;

    open spec fn view(&self) -> NoteFileView {
        NoteFileView {
            id: self.id,
            note: self.item_id,
            name: self.name@,
            path: self.stored_path@,
            media_type: self.media_type@,
            size: self.size,
            created_at: self.created_at,
        }
    }
}

impl Plain for NoteFile {
    fn duplicate(&self) -> (copy: Self) {
        NoteFile {
            id: self.id,
            item_id: self.item_id,
            name: self.name.duplicate(),
            stored_path: self.stored_path.duplicate(),
            media_type: self.media_type.duplicate(),
            size: self.size,
            created_at: self.created_at,
        }
    }

    fn same(&self, other: &Self) -> (equal: bool) {
        self.id == other.id && self.item_id == other.item_id && self.name.same(&other.name)
            && self.stored_path.same(&other.stored_path) && self.media_type.same(
            &other.media_type,
        ) && self.size == other.size && self.created_at == other.created_at
    }
}

/// The notebook. Its rows stand in the order of their identifiers.
#[derive(Debug, Clone, PartialEq, Eq)]
pub struct Notebook {
    pub sections: Vec<ListRow>,
    pub items: Vec<NoteRow>,
    pub attachments: Vec<NoteFile>,
    pub active_section: Option<i64>,
}

/// The notebook.
#[verifier::ext_equal]
pub struct NotebookView {
    pub lists: Seq<ListView>,
    pub notes: Seq<NoteView>,
    pub files: Seq<NoteFileView>,
    /// The list that new notes go to, or the inbox.
    pub active: Option<i64>,
}

impl View for Notebook {
    type V = NotebookView;

    open spec fn view(&self) -> NotebookView {
        NotebookView {
            lists: views(self.sections@),
            notes: views(self.items@),
            files: views(self.attachments@),
            active: self.active_section,
        }
    }
}

/// Why a text cannot be a note.
pub open spec fn note_fault(text: Seq<char>) -> Option<CommandError> {
    if trimmed(text).len() == 0 {
        Some(CommandError::EmptyNote)
    } else if trimmed(text).len() > MAX_ITEM_CHARS {
        Some(CommandError::LongNote)
    } else {
        None
    }
}

/// The text of a note, without the blanks around it.
pub fn item_content(content: &str) -> (result: Result<String, CommandError>)
    ensures
        match note_fault(content@) {
            Some(fault) => result == Err::<String, CommandError>(fault),
            None => result matches Ok(kept) && kept@ == trimmed(content@),
        },
{
    let kept = trim(content);
    let count: usize = chars_of(kept.as_str()).len();
    if count == 0 {
        return Err(CommandError::EmptyNote);
    }
    if count > MAX_ITEM_CHARS {
        return Err(CommandError::LongNote);
    }
    Ok(kept)
}

/// Why a text cannot be the name of a list.
pub open spec fn name_fault(text: Seq<char>) -> Option<CommandError> {
    let name = trimmed(text);
    if name.len() == 0 {
        Some(CommandError::EmptyName)
    } else if name.len() > MAX_SECTION_CHARS {
        Some(CommandError::LongName)
    } else if name.contains('\n') || name.contains('\r') {
        Some(CommandError::BrokenName)
    } else {
        None
    }
}

/// The name of a list, without the blanks around it.
pub fn section_name(name: &str) -> (result: Result<String, CommandError>)
    ensures
        match name_fault(name@) {
            Some(fault) => result == Err::<String, CommandError>(fault),
            None => result matches Ok(kept) && kept@ == trimmed(name@),
        },
{
    let kept = trim(name);
    let count: usize = chars_of(kept.as_str()).len();
    if count == 0 {
        return Err(CommandError::EmptyName);
    }
    if count > MAX_SECTION_CHARS {
        return Err(CommandError::LongName);
    }
    if contains_char(kept.as_str(), '\n') || contains_char(kept.as_str(), '\r') {
        return Err(CommandError::BrokenName);
    }
    Ok(kept)
}

/// The name of the list that an entry opens: what follows one or two hash signs and a blank.
pub open spec fn list_named(content: Seq<char>) -> Option<Seq<char>> {
    if starts_with(content, "## "@) {
        Some(content.skip(3))
    } else if starts_with(content, "# "@) {
        Some(content.skip(2))
    } else {
        None
    }
}

/// The name of the list that an entry opens.
pub fn entry_list_name(content: &str) -> (name: Option<&str>)
    ensures
        list_named(content@) == match name {
            Some(text) => Some(text@),
            None => None,
        },
{
    proof {
        reveal_strlit("## ");
        reveal_strlit("# ");
    }
    match after_prefix(content, "## ") {
        Some(name) => Some(name),
        None => after_prefix(content, "# "),
    }
}

/// The identifiers in rising order, each of them once.
pub open spec fn rising(ids: Seq<i64>) -> bool {
    forall|i: int, j: int| 0 <= i < j < ids.len() ==> ids[i] < ids[j]
}

/// Why identifiers are not taken.
pub open spec fn ids_fault(ids: Seq<i64>, most: usize) -> Option<CommandError> {
    if ids.len() > most {
        Some(CommandError::TooManyItems)
    } else if exists|i: int| 0 <= i < ids.len() && #[trigger] ids[i] <= 0 {
        Some(CommandError::InvalidItem)
    } else {
        None
    }
}

/// Two lists of identifiers hold the same ones.
pub open spec fn same_ids(a: Seq<i64>, b: Seq<i64>) -> bool {
    forall|id: i64| #[trigger] a.contains(id) <==> b.contains(id)
}

fn insert_id(ids: &mut Vec<i64>, id: i64)
    requires
        rising(old(ids)@),
    ensures
        rising(final(ids)@),
        forall|other: i64| #[trigger]
            final(ids)@.contains(other) <==> old(ids)@.contains(other) || other == id,
{
    let mut at: usize = 0;
    while at < ids.len() && ids[at] < id
        invariant
            ids@ == old(ids)@,
            at <= ids.len(),
            forall|i: int| 0 <= i < at ==> ids@[i] < id,
        decreases ids.len() - at,
    {
        at = at + 1;
    }
    if at < ids.len() && ids[at] == id {
        assert(ids@.contains(id));
        return ;
    }
    let ghost before = ids@;
    ids.insert(at, id);
    proof {
        assert(ids@ == before.insert(at as int, id));
        assert forall|other: i64| #[trigger] ids@.contains(other) <==> before.contains(other)
            || other == id by {
            if ids@.contains(other) {
                let i = choose|i: int| 0 <= i < ids@.len() && ids@[i] == other;
                if i < at {
                    assert(before[i] == other);
                } else if i > at {
                    assert(before[i - 1] == other);
                }
            }
            if before.contains(other) {
                let i = choose|i: int| 0 <= i < before.len() && before[i] == other;
                if i < at {
                    assert(ids@[i] == other);
                } else {
                    assert(ids@[i + 1] == other);
                }
            }
            if other == id {
                assert(ids@[at as int] == other);
            }
        }
    }
}

/// The identifiers in rising order, each of them once. There may be so many at most, and all must
/// be positive.
pub fn item_ids(ids: Vec<i64>, most: usize) -> (result: Result<Vec<i64>, CommandError>)
    ensures
        match ids_fault(ids@, most) {
            Some(fault) => result == Err::<Vec<i64>, CommandError>(fault),
            None => result matches Ok(sorted) && rising(sorted@) && same_ids(sorted@, ids@),
        },
{
    if ids.len() > most {
        return Err(CommandError::TooManyItems);
    }
    let mut sorted: Vec<i64> = Vec::new();
    let mut at: usize = 0;
    while at < ids.len()
        invariant
            ids@.len() <= most,
            at <= ids.len(),
            rising(sorted@),
            forall|i: int| 0 <= i < at ==> #[trigger] ids@[i] > 0,
            forall|id: i64| #[trigger] sorted@.contains(id) <==> ids@.take(at as int).contains(id),
        decreases ids.len() - at,
    {
        if ids[at] <= 0 {
            assert(ids@[at as int] <= 0);
            return Err(CommandError::InvalidItem);
        }
        insert_id(&mut sorted, ids[at]);
        proof {
            let next = ids@.take(at + 1);
            let front = ids@.take(at as int);
            assert forall|id: i64| #[trigger] sorted@.contains(id) <==> next.contains(id) by {
                if next.contains(id) {
                    let i = choose|i: int| 0 <= i < next.len() && next[i] == id;
                    if i < at {
                        assert(front[i] == id);
                    }
                }
                if front.contains(id) {
                    let i = choose|i: int| 0 <= i < front.len() && front[i] == id;
                    assert(next[i] == id);
                }
                if id == ids@[at as int] {
                    assert(next[at as int] == id);
                }
            }
        }
        at = at + 1;
    }
    assert(ids@.take(at as int) =~= ids@);
    Ok(sorted)
}

/// There is only one way to write identifiers in rising order.
pub proof fn lemma_rising_unique(a: Seq<i64>, b: Seq<i64>)
    requires
        rising(a),
        rising(b),
        same_ids(a, b),
    ensures
        a == b,
    decreases a.len(),
{
    if a.len() == 0 {
        if b.len() > 0 {
            assert(b.contains(b[0]));
            assert(a.contains(b[0]));
        }
        assert(a =~= b);
    } else {
        assert(a.contains(a.last()));
        assert(b.contains(a.last()));
        let i = choose|i: int| 0 <= i < b.len() && b[i] == a.last();
        assert(b.contains(b.last()));
        assert(a.contains(b.last()));
        let j = choose|j: int| 0 <= j < a.len() && a[j] == b.last();
        assert(a[j] <= a.last());
        assert(b[i] <= b.last());
        let shorter_a = a.drop_last();
        let shorter_b = b.drop_last();
        assert forall|id: i64| #[trigger] shorter_a.contains(id) <==> shorter_b.contains(id) by {
            if shorter_a.contains(id) {
                let k = choose|k: int| 0 <= k < shorter_a.len() && shorter_a[k] == id;
                assert(a[k] == id);
                assert(a.contains(id));
                assert(b.contains(id));
                let m = choose|m: int| 0 <= m < b.len() && b[m] == id;
                assert(m < b.len() - 1);
                assert(shorter_b[m] == id);
            }
            if shorter_b.contains(id) {
                let k = choose|k: int| 0 <= k < shorter_b.len() && shorter_b[k] == id;
                assert(b[k] == id);
                assert(b.contains(id));
                assert(a.contains(id));
                let m = choose|m: int| 0 <= m < a.len() && a[m] == id;
                assert(m < a.len() - 1);
                assert(shorter_a[m] == id);
            }
        }
        lemma_rising_unique(shorter_a, shorter_b);
        assert(a =~= shorter_a.push(a.last()));
        assert(b =~= shorter_b.push(b.last()));
    }
}

/// Where a note stands, or its absence.
pub open spec fn has_note(notes: Seq<NoteView>, id: i64) -> bool {
    exists|i: int| 0 <= i < notes.len() && (#[trigger] notes[i]).id == id
}

/// There is such a list.
pub open spec fn has_list(lists: Seq<ListView>, id: i64) -> bool {
    exists|i: int| 0 <= i < lists.len() && (#[trigger] lists[i]).id == id
}

/// The first note with an identifier.
pub open spec fn note_of(notes: Seq<NoteView>, id: i64) -> Option<NoteView>
    decreases notes.len(),
{
    if notes.len() == 0 {
        None
    } else if notes[0].id == id {
        Some(notes[0])
    } else {
        note_of(notes.drop_first(), id)
    }
}

/// The first list with an identifier.
pub open spec fn list_of(lists: Seq<ListView>, id: i64) -> Option<ListView>
    decreases lists.len(),
{
    if lists.len() == 0 {
        None
    } else if lists[0].id == id {
        Some(lists[0])
    } else {
        list_of(lists.drop_first(), id)
    }
}

/// The first list whose name is this one but for the case of its letters.
pub open spec fn list_called(lists: Seq<ListView>, name: Seq<char>) -> Option<ListView>
    decreases lists.len(),
{
    if lists.len() == 0 {
        None
    } else if ascii_lowercase(lists[0].name) == ascii_lowercase(name) {
        Some(lists[0])
    } else {
        list_called(lists.drop_first(), name)
    }
}

/// A list other than the given one is called so.
pub open spec fn called_elsewhere(lists: Seq<ListView>, name: Seq<char>, but: i64) -> bool {
    exists|i: int|
        0 <= i < lists.len() && (#[trigger] lists[i]).id != but && ascii_lowercase(lists[i].name)
            == ascii_lowercase(name)
}

/// The largest identifier, or zero.
pub open spec fn largest(ids: Seq<i64>) -> int
    decreases ids.len(),
{
    if ids.len() == 0 {
        0
    } else if ids.last() > largest(ids.drop_last()) {
        ids.last() as int
    } else {
        largest(ids.drop_last())
    }
}

/// The identifiers of lists.
pub open spec fn list_ids(lists: Seq<ListView>) -> Seq<i64> {
    lists.map_values(|list: ListView| list.id)
}

/// The identifiers of notes.
pub open spec fn note_ids(notes: Seq<NoteView>) -> Seq<i64> {
    notes.map_values(|note: NoteView| note.id)
}

/// The identifiers of files.
pub open spec fn file_ids(files: Seq<NoteFileView>) -> Seq<i64> {
    files.map_values(|file: NoteFileView| file.id)
}

/// What is done to a note.
#[derive(Debug, Clone, PartialEq, Eq)]
pub enum NoteChange {
    Done(bool),
    Content(String),
    Section(Option<i64>),
    /// New content on another list.
    Moved(String, Option<i64>),
    /// New content, and open again.
    Merged(String),
}

/// What is done to a note.
pub enum ChangeView {
    Done(bool),
    Content(Seq<char>),
    Section(Option<i64>),
    Moved(Seq<char>, Option<i64>),
    Merged(Seq<char>),
}

impl View for NoteChange {
    type V = ChangeView;

    open spec fn view(&self) -> ChangeView {
        match self {
            NoteChange::Done(done) => ChangeView::Done(*done),
            NoteChange::Content(content) => ChangeView::Content(content@),
            NoteChange::Section(list) => ChangeView::Section(*list),
            NoteChange::Moved(content, list) => ChangeView::Moved(content@, *list),
            NoteChange::Merged(content) => ChangeView::Merged(content@),
        }
    }
}

/// A note after a change.
pub open spec fn note_after(note: NoteView, change: ChangeView, now: i64) -> NoteView {
    match change {
        ChangeView::Done(done) => NoteView { done, updated_at: now, ..note },
        ChangeView::Content(content) => NoteView { content, updated_at: now, ..note },
        ChangeView::Section(list) => NoteView { list, updated_at: now, ..note },
        ChangeView::Moved(content, list) => NoteView { content, list, updated_at: now, ..note },
        ChangeView::Merged(content) => NoteView { content, done: false, updated_at: now, ..note },
    }
}

/// The notes after a change of those that have the identifier.
pub open spec fn notes_after(notes: Seq<NoteView>, id: i64, change: ChangeView, now: i64) -> Seq<
    NoteView,
> {
    Seq::new(
        notes.len(),
        |i: int|
            if notes[i].id == id {
                note_after(notes[i], change, now)
            } else {
                notes[i]
            },
    )
}

fn changed_note(note: &NoteRow, change: &NoteChange, now: i64) -> (changed: NoteRow)
    ensures
        changed@ == note_after(note@, change@, now),
{
    let mut changed = note.duplicate();
    changed.updated_at = now;
    match change {
        NoteChange::Done(done) => {
            changed.done = *done;
        },
        NoteChange::Content(content) => {
            changed.content = content.duplicate();
        },
        NoteChange::Section(list) => {
            changed.section_id = *list;
        },
        NoteChange::Moved(content, list) => {
            changed.content = content.duplicate();
            changed.section_id = *list;
        },
        NoteChange::Merged(content) => {
            changed.content = content.duplicate();
            changed.done = false;
        },
    }
    changed
}

/// The notes that are not among those with the identifiers.
pub open spec fn notes_without(notes: Seq<NoteView>, ids: Seq<i64>) -> Seq<NoteView> {
    notes.filter(|note: NoteView| !ids.contains(note.id))
}

/// The files that are not attached to notes with the identifiers.
pub open spec fn files_without(files: Seq<NoteFileView>, ids: Seq<i64>) -> Seq<NoteFileView> {
    files.filter(|file: NoteFileView| !ids.contains(file.note))
}

/// Where the files lie that are attached to a note.
pub open spec fn paths_of(files: Seq<NoteFileView>, id: i64) -> Seq<Seq<char>>
    decreases files.len(),
{
    if files.len() == 0 {
        Seq::empty()
    } else if files.last().note == id {
        paths_of(files.drop_last(), id).push(files.last().path)
    } else {
        paths_of(files.drop_last(), id)
    }
}

/// Where the files lie that are attached to notes, note by note.
pub open spec fn paths_of_all(files: Seq<NoteFileView>, ids: Seq<i64>) -> Seq<Seq<char>>
    decreases ids.len(),
{
    if ids.len() == 0 {
        Seq::empty()
    } else {
        paths_of_all(files, ids.drop_last()) + paths_of(files, ids.last())
    }
}

fn contains_id(ids: &[i64], id: i64) -> (found: bool)
    ensures
        found == ids@.contains(id),
{
    let mut at: usize = 0;
    while at < ids.len()
        invariant
            at <= ids.len(),
            forall|i: int| 0 <= i < at ==> ids@[i] != id,
        decreases ids.len() - at,
    {
        if ids[at] == id {
            return true;
        }
        at = at + 1;
    }
    false
}

/// The identifiers of the notes for which something holds.
pub open spec fn ids_where(notes: Seq<NoteView>, wanted: spec_fn(NoteView) -> bool) -> Seq<i64>
    decreases notes.len(),
{
    if notes.len() == 0 {
        Seq::empty()
    } else if wanted(notes.last()) {
        ids_where(notes.drop_last(), wanted).push(notes.last().id)
    } else {
        ids_where(notes.drop_last(), wanted)
    }
}

/// The notes that are looked at: those of the inbox, of one list, or all.
#[derive(Debug, Clone, Copy, PartialEq, Eq, Structural)]
pub enum Scope {
    Inbox,
    List(i64),
    All,
}

/// The notes of a list are in the scope; those of the inbox, where no list is given.
pub open spec fn in_scope(list: Option<i64>, scope: Scope) -> bool {
    match scope {
        Scope::Inbox => list is None,
        Scope::List(id) => list == Some(id),
        Scope::All => true,
    }
}

/// The scope that is open: the active list, or the inbox.
pub open spec fn open_scope(active: Option<i64>) -> Scope {
    match active {
        Some(id) => Scope::List(id),
        None => Scope::Inbox,
    }
}

/// The identifiers of the notes in a scope that are done.
pub open spec fn done_ids(notes: Seq<NoteView>, scope: Scope) -> Seq<i64> {
    ids_where(notes, |note: NoteView| note.done && in_scope(note.list, scope))
}

/// The identifiers of the notes on a list.
pub open spec fn listed_ids(notes: Seq<NoteView>, list: i64) -> Seq<i64> {
    ids_where(notes, |note: NoteView| note.list == Some(list))
}

impl Notebook {
    /// An empty notebook.
    pub fn new() -> (notebook: Self)
        ensures
            notebook@ == (NotebookView {
                lists: Seq::empty(),
                notes: Seq::empty(),
                files: Seq::empty(),
                active: None,
            }),
    {
        let notebook = Notebook {
            sections: Vec::new(),
            items: Vec::new(),
            attachments: Vec::new(),
            active_section: None,
        };
        assert(notebook@ =~= (NotebookView {
            lists: Seq::empty(),
            notes: Seq::empty(),
            files: Seq::empty(),
            active: None,
        }));
        notebook
    }

    /// The first note with an identifier.
    pub fn note(&self, id: i64) -> (found: Option<&NoteRow>)
        ensures
            note_of(self@.notes, id) == match found {
                Some(note) => Some(note@),
                None => None,
            },
    {
        let ghost all = self@.notes;
        let mut at: usize = 0;
        assert(all.skip(0) =~= all);
        while at < self.items.len()
            invariant
                all == views(self.items@),
                at <= self.items.len(),
                note_of(all.skip(at as int), id) == note_of(all, id),
            decreases self.items.len() - at,
        {
            proof {
                assert(all.skip(at as int)[0] == self.items@[at as int]@);
                assert(all.skip(at as int).drop_first() =~= all.skip(at + 1));
            }
            if self.items[at].id == id {
                return Some(&self.items[at]);
            }
            at = at + 1;
        }
        None
    }

    /// The first list with an identifier.
    pub fn list(&self, id: i64) -> (found: Option<&ListRow>)
        ensures
            list_of(self@.lists, id) == match found {
                Some(list) => Some(list@),
                None => None,
            },
    {
        let ghost all = self@.lists;
        let mut at: usize = 0;
        assert(all.skip(0) =~= all);
        while at < self.sections.len()
            invariant
                all == views(self.sections@),
                at <= self.sections.len(),
                list_of(all.skip(at as int), id) == list_of(all, id),
            decreases self.sections.len() - at,
        {
            proof {
                assert(all.skip(at as int)[0] == self.sections@[at as int]@);
                assert(all.skip(at as int).drop_first() =~= all.skip(at + 1));
            }
            if self.sections[at].id == id {
                return Some(&self.sections[at]);
            }
            at = at + 1;
        }
        None
    }

    /// The first list whose name is this one but for the case of its letters.
    pub fn list_called(&self, name: &str) -> (found: Option<&ListRow>)
        ensures
            list_called(self@.lists, name@) == match found {
                Some(list) => Some(list@),
                None => None,
            },
    {
        let ghost all = self@.lists;
        let small = to_lowercase_ascii(name);
        let mut at: usize = 0;
        assert(all.skip(0) =~= all);
        while at < self.sections.len()
            invariant
                all == views(self.sections@),
                small@ == ascii_lowercase(name@),
                at <= self.sections.len(),
                list_called(all.skip(at as int), name@) == list_called(all, name@),
            decreases self.sections.len() - at,
        {
            proof {
                assert(all.skip(at as int)[0] == self.sections@[at as int]@);
                assert(all.skip(at as int).drop_first() =~= all.skip(at + 1));
            }
            if text_eq(
                to_lowercase_ascii(self.sections[at].name.as_str()).as_str(),
                small.as_str(),
            ) {
                return Some(&self.sections[at]);
            }
            at = at + 1;
        }
        None
    }

    /// Whether there is such a list.
    pub fn section_exists(&self, id: i64) -> (exists_: bool)
        ensures
            exists_ == has_list(self@.lists, id),
    {
        proof {
            lemma_list_of(self@.lists, id);
        }
        self.list(id).is_some()
    }

    /// Whether another list is called so, but for the case of its letters.
    pub fn section_name_exists(&self, name: &str, but: i64) -> (taken: bool)
        ensures
            taken == called_elsewhere(self@.lists, name@, but),
    {
        let ghost all = self@.lists;
        let small = to_lowercase_ascii(name);
        let mut at: usize = 0;
        while at < self.sections.len()
            invariant
                all == views(self.sections@),
                all == self@.lists,
                small@ == ascii_lowercase(name@),
                at <= self.sections.len(),
                forall|i: int|
                    0 <= i < at ==> (#[trigger] all[i]).id == but || ascii_lowercase(all[i].name)
                        != small@,
            decreases self.sections.len() - at,
        {
            assert(all[at as int] == self.sections@[at as int]@);
            if self.sections[at].id != but && text_eq(
                to_lowercase_ascii(self.sections[at].name.as_str()).as_str(),
                small.as_str(),
            ) {
                return true;
            }
            at = at + 1;
        }
        false
    }

    /// Changes the notes that have the identifier, and says whether there were any.
    pub fn change_note(&mut self, id: i64, change: &NoteChange, now: i64) -> (found: bool)
        ensures
            final(self)@ == (NotebookView {
                notes: notes_after(old(self)@.notes, id, change@, now),
                ..old(self)@
            }),
            found == has_note(old(self)@.notes, id),
    {
        let ghost all = self@.notes;
        let ghost before = self@;
        let mut found = false;
        let mut at: usize = 0;
        while at < self.items.len()
            invariant
                before.notes == all,
                self@.lists == before.lists,
                self@.files == before.files,
                self@.active == before.active,
                self.items@.len() == all.len(),
                at <= all.len(),
                forall|i: int|
                    0 <= i < at ==> (#[trigger] self.items@[i])@ == if all[i].id == id {
                        note_after(all[i], change@, now)
                    } else {
                        all[i]
                    },
                forall|i: int| at <= i < all.len() ==> (#[trigger] self.items@[i])@ == all[i],
                found == exists|i: int| 0 <= i < at && (#[trigger] all[i]).id == id,
            decreases all.len() - at,
        {
            assert(self.items@[at as int]@ == all[at as int]);
            if self.items[at].id == id {
                let changed = changed_note(&self.items[at], change, now);
                self.items.set(at, changed);
                found = true;
                assert(all[at as int].id == id);
            }
            at = at + 1;
        }
        assert(self@.notes =~= notes_after(all, id, change@, now));
        assert(self@ =~= (NotebookView { notes: notes_after(all, id, change@, now), ..before }));
        found
    }
}

proof fn lemma_note_of(notes: Seq<NoteView>, id: i64)
    ensures
        note_of(notes, id) is Some <==> has_note(notes, id),
        note_of(notes, id) matches Some(note) ==> note.id == id,
    decreases notes.len(),
{
    if notes.len() > 0 {
        let rest = notes.drop_first();
        lemma_note_of(rest, id);
        if has_note(notes, id) && notes[0].id != id {
            let i = choose|i: int| 0 <= i < notes.len() && (#[trigger] notes[i]).id == id;
            assert(rest[i - 1].id == id);
        }
        if has_note(rest, id) {
            let i = choose|i: int| 0 <= i < rest.len() && (#[trigger] rest[i]).id == id;
            assert(notes[i + 1].id == id);
        }
        if notes[0].id == id {
            assert(has_note(notes, id));
        }
    }
}

proof fn lemma_list_of(lists: Seq<ListView>, id: i64)
    ensures
        list_of(lists, id) is Some <==> has_list(lists, id),
        list_of(lists, id) matches Some(list) ==> list.id == id,
    decreases lists.len(),
{
    if lists.len() > 0 {
        let rest = lists.drop_first();
        lemma_list_of(rest, id);
        if has_list(lists, id) && lists[0].id != id {
            let i = choose|i: int| 0 <= i < lists.len() && (#[trigger] lists[i]).id == id;
            assert(rest[i - 1].id == id);
        }
        if has_list(rest, id) {
            let i = choose|i: int| 0 <= i < rest.len() && (#[trigger] rest[i]).id == id;
            assert(lists[i + 1].id == id);
        }
        if lists[0].id == id {
            assert(has_list(lists, id));
        }
    }
}

/// The notes after the same change of several of them.
pub open spec fn all_after(notes: Seq<NoteView>, ids: Seq<i64>, change: ChangeView, now: i64) -> Seq<
    NoteView,
>
    decreases ids.len(),
{
    if ids.len() == 0 {
        notes
    } else {
        notes_after(all_after(notes, ids.drop_last(), change, now), ids.last(), change, now)
    }
}

/// One of the identifiers belongs to no note.
pub open spec fn some_missing(notes: Seq<NoteView>, ids: Seq<i64>) -> bool {
    exists|i: int| 0 <= i < ids.len() && !has_note(notes, #[trigger] ids[i])
}

/// The contents of several notes, with an empty line between them.
pub open spec fn contents_of(notes: Seq<NoteView>, ids: Seq<i64>) -> Option<Seq<char>>
    decreases ids.len(),
{
    if ids.len() == 0 {
        Some(Seq::empty())
    } else {
        match (contents_of(notes, ids.drop_last()), note_of(notes, ids.last())) {
            (Some(front), Some(note)) => Some(
                if ids.len() == 1 {
                    note.content
                } else {
                    front + "\n\n"@ + note.content
                },
            ),
            _ => None,
        }
    }
}

/// The files after those of some notes went over to another note.
pub open spec fn files_moved(files: Seq<NoteFileView>, from: Seq<i64>, to: i64) -> Seq<
    NoteFileView,
> {
    Seq::new(
        files.len(),
        |i: int|
            if from.contains(files[i].note) {
                NoteFileView { note: to, ..files[i] }
            } else {
                files[i]
            },
    )
}

/// The notebook after notes were taken out, with their files.
pub open spec fn notes_removed(notebook: NotebookView, ids: Seq<i64>) -> NotebookView {
    NotebookView {
        notes: notes_without(notebook.notes, ids),
        files: files_without(notebook.files, ids),
        ..notebook
    }
}

/// The notebook after notes were merged into the first of them, or why they are not.
pub open spec fn notes_merged(notebook: NotebookView, ids: Seq<i64>, now: i64) -> Result<
    NotebookView,
    CommandError,
> {
    if ids.len() < 2 {
        Err(CommandError::TooFewItems)
    } else {
        match contents_of(notebook.notes, ids) {
            None => Err(CommandError::MissingNote),
            Some(content) => if content.len() > MAX_ITEM_CHARS {
                Err(CommandError::LongMerge)
            } else {
                let others = ids.drop_first();
                Ok(
                    NotebookView {
                        notes: notes_without(
                            notes_after(
                                notebook.notes,
                                ids[0],
                                ChangeView::Merged(content),
                                now,
                            ),
                            others,
                        ),
                        files: files_moved(notebook.files, others, ids[0]),
                        ..notebook
                    },
                )
            },
        }
    }
}

/// The notes after a list was taken away from them.
pub open spec fn notes_unlisted(notes: Seq<NoteView>, list: i64) -> Seq<NoteView> {
    Seq::new(
        notes.len(),
        |i: int|
            if notes[i].list == Some(list) {
                NoteView { list: None, ..notes[i] }
            } else {
                notes[i]
            },
    )
}

/// The lists but for those with the identifier.
pub open spec fn lists_without(lists: Seq<ListView>, id: i64) -> Seq<ListView> {
    lists.filter(|list: ListView| list.id != id)
}

/// The notebook after a list was deleted. Its notes go to the inbox, or with it.
pub open spec fn list_deleted(notebook: NotebookView, id: i64, with_notes: bool) -> NotebookView {
    let rest = if with_notes {
        notes_removed(notebook, listed_ids(notebook.notes, id))
    } else {
        NotebookView { notes: notes_unlisted(notebook.notes, id), ..notebook }
    };
    NotebookView {
        lists: lists_without(notebook.lists, id),
        active: if notebook.active == Some(id) {
            None
        } else {
            notebook.active
        },
        ..rest
    }
}

/// The notebook after a list was made and opened, or opened where there is one that is called so.
pub open spec fn list_opened(notebook: NotebookView, name: Seq<char>, now: i64) -> Result<
    (NotebookView, i64),
    CommandError,
> {
    match list_called(notebook.lists, name) {
        Some(list) => Ok((NotebookView { active: Some(list.id), ..notebook }, list.id)),
        None => if largest(list_ids(notebook.lists)) >= i64::MAX {
            Err(CommandError::Full)
        } else {
            let id = (largest(list_ids(notebook.lists)) + 1) as i64;
            Ok(
                (
                    NotebookView {
                        lists: notebook.lists.push(ListView { id, name, created_at: now }),
                        active: Some(id),
                        ..notebook
                    },
                    id,
                ),
            )
        },
    }
}

/// The lists after one of them was renamed.
pub open spec fn lists_renamed(lists: Seq<ListView>, id: i64, name: Seq<char>) -> Seq<ListView> {
    Seq::new(
        lists.len(),
        |i: int|
            if lists[i].id == id {
                ListView { name, ..lists[i] }
            } else {
                lists[i]
            },
    )
}

/// What is left of a result: the notebook as it was where there is a fault.
pub open spec fn settled_as<T>(
    before: NotebookView,
    after: NotebookView,
    result: Result<T, CommandError>,
    expected: Result<(NotebookView, T), CommandError>,
) -> bool {
    match expected {
        Ok((state, value)) => after == state && result == Ok::<T, CommandError>(value),
        Err(fault) => after == before && result == Err::<T, CommandError>(fault),
    }
}

/// The largest identifier, or zero.
pub fn largest_id(ids: &[i64]) -> (id: i64)
    ensures
        id == largest(ids@),
{
    let mut most: i64 = 0;
    let mut at: usize = 0;
    assert(ids@.take(0) =~= Seq::empty());
    while at < ids.len()
        invariant
            at <= ids.len(),
            most == largest(ids@.take(at as int)),
        decreases ids.len() - at,
    {
        assert(ids@.take(at + 1).drop_last() =~= ids@.take(at as int));
        if ids[at] > most {
            most = ids[at];
        }
        at = at + 1;
    }
    assert(ids@.take(at as int) =~= ids@);
    most
}

impl Notebook {
    fn change_notes(&mut self, ids: &[i64], change: &NoteChange, now: i64)
        ensures
            final(self)@ == (NotebookView {
                notes: all_after(old(self)@.notes, ids@, change@, now),
                ..old(self)@
            }),
    {
        let ghost before = self@;
        let mut at: usize = 0;
        assert(ids@.take(0) =~= Seq::empty());
        assert(self@ =~= (NotebookView {
            notes: all_after(before.notes, ids@.take(0), change@, now),
            ..before
        }));
        while at < ids.len()
            invariant
                at <= ids.len(),
                self@ == (NotebookView {
                    notes: all_after(before.notes, ids@.take(at as int), change@, now),
                    ..before
                }),
            decreases ids.len() - at,
        {
            assert(ids@.take(at + 1).drop_last() =~= ids@.take(at as int));
            let _ = self.change_note(ids[at], change, now);
            at = at + 1;
        }
        assert(ids@.take(at as int) =~= ids@);
    }

    /// Ticks notes off, or opens them again. Notes that are gone are passed over.
    pub fn set_items_done(&mut self, ids: Vec<i64>, done: bool, most: usize, now: i64) -> (result:
        Result<(), CommandError>)
        ensures
            match ids_fault(ids@, most) {
                Some(fault) => result == Err::<(), CommandError>(fault) && final(self)@ == old(
                    self,
                )@,
                None => result is Ok && exists|sorted: Seq<i64>| #[trigger]
                    rising(sorted) && same_ids(sorted, ids@) && final(self)@ == (NotebookView {
                        notes: all_after(
                            old(self)@.notes,
                            sorted,
                            ChangeView::Done(done),
                            now,
                        ),
                        ..old(self)@
                    }),
            },
    {
        match item_ids(ids, most) {
            Err(fault) => Err(fault),
            Ok(sorted) => {
                self.change_notes(sorted.as_slice(), &NoteChange::Done(done), now);
                Ok(())
            },
        }
    }

    /// Gives a note new content.
    pub fn update_item(&mut self, id: i64, content: &str, now: i64) -> (result: Result<
        (),
        CommandError,
    >)
        ensures
            match note_fault(content@) {
                Some(fault) => result == Err::<(), CommandError>(fault) && final(self)@ == old(
                    self,
                )@,
                None => if has_note(old(self)@.notes, id) {
                    result is Ok && final(self)@ == (NotebookView {
                        notes: notes_after(
                            old(self)@.notes,
                            id,
                            ChangeView::Content(trimmed(content@)),
                            now,
                        ),
                        ..old(self)@
                    })
                } else {
                    result == Err::<(), CommandError>(CommandError::MissingNote) && final(self)@
                        == old(self)@
                },
            },
    {
        let content = match item_content(content) {
            Err(fault) => {
                return Err(fault);
            },
            Ok(content) => content,
        };
        proof {
            lemma_note_of(self@.notes, id);
        }
        if self.note(id).is_none() {
            return Err(CommandError::MissingNote);
        }
        let _ = self.change_note(id, &NoteChange::Content(content), now);
        Ok(())
    }

    /// Takes notes out, with what is attached to them, and says which files are no longer needed.
    fn remove_notes(&mut self, ids: &[i64]) -> (paths: Vec<String>)
        ensures
            final(self)@ == notes_removed(old(self)@, ids@),
            views(paths@) == paths_of_all(old(self)@.files, ids@),
    {
        let paths = self.stored_paths(ids);
        let ghost before = self@;
        let mut notes: Vec<NoteRow> = Vec::new();
        let ghost keep = |note: NoteView| !ids@.contains(note.id);
        let mut at: usize = 0;
        proof {
            reveal(Seq::filter);
            assert(before.notes.take(0).filter(keep) =~= Seq::empty());
            assert(views(notes@) =~= before.notes.take(0).filter(keep));
        }
        while at < self.items.len()
            invariant
                self@ == before,
                before.notes == views(self.items@),
                at <= self.items.len(),
                keep == (|note: NoteView| !ids@.contains(note.id)),
                views(notes@) == before.notes.take(at as int).filter(keep),
            decreases self.items.len() - at,
        {
            proof {
                reveal(Seq::filter);
                let next = before.notes.take(at + 1);
                assert(next.drop_last() =~= before.notes.take(at as int));
                assert(next.last() == self.items@[at as int]@);
            }
            if !contains_id(ids, self.items[at].id) {
                let ghost held = views(notes@);
                notes.push(self.items[at].duplicate());
                assert(views(notes@) =~= held.push(self.items@[at as int]@));
            }
            at = at + 1;
        }
        assert(before.notes.take(at as int) =~= before.notes);
        let mut files: Vec<NoteFile> = Vec::new();
        let ghost attached = |file: NoteFileView| !ids@.contains(file.note);
        let mut at: usize = 0;
        proof {
            reveal(Seq::filter);
            assert(before.files.take(0).filter(attached) =~= Seq::empty());
            assert(views(files@) =~= before.files.take(0).filter(attached));
        }
        while at < self.attachments.len()
            invariant
                self@ == before,
                before.files == views(self.attachments@),
                at <= self.attachments.len(),
                attached == (|file: NoteFileView| !ids@.contains(file.note)),
                views(files@) == before.files.take(at as int).filter(attached),
            decreases self.attachments.len() - at,
        {
            proof {
                reveal(Seq::filter);
                let next = before.files.take(at + 1);
                assert(next.drop_last() =~= before.files.take(at as int));
                assert(next.last() == self.attachments@[at as int]@);
            }
            if !contains_id(ids, self.attachments[at].item_id) {
                let ghost held = views(files@);
                files.push(self.attachments[at].duplicate());
                assert(views(files@) =~= held.push(self.attachments@[at as int]@));
            }
            at = at + 1;
        }
        assert(before.files.take(at as int) =~= before.files);
        self.items = notes;
        self.attachments = files;
        assert(self@ =~= notes_removed(before, ids@));
        paths
    }

    /// Where the files lie that are attached to notes, note by note.
    fn stored_paths(&self, ids: &[i64]) -> (paths: Vec<String>)
        ensures
            views(paths@) == paths_of_all(self@.files, ids@),
    {
        let ghost files = self@.files;
        let mut paths: Vec<String> = Vec::new();
        let mut at: usize = 0;
        assert(ids@.take(0) =~= Seq::empty());
        assert(views(paths@) =~= paths_of_all(files, ids@.take(0)));
        while at < ids.len()
            invariant
                files == views(self.attachments@),
                at <= ids.len(),
                views(paths@) == paths_of_all(files, ids@.take(at as int)),
            decreases ids.len() - at,
        {
            let ghost front = views(paths@);
            let id = ids[at];
            let mut place: usize = 0;
            assert(front + paths_of(files.take(0), id) =~= front);
            while place < self.attachments.len()
                invariant
                    files == views(self.attachments@),
                    place <= self.attachments.len(),
                    views(paths@) == front + paths_of(files.take(place as int), id),
                decreases self.attachments.len() - place,
            {
                proof {
                    let next = files.take(place + 1);
                    assert(next.drop_last() =~= files.take(place as int));
                    assert(next.last() == self.attachments@[place as int]@);
                }
                let ghost held = views(paths@);
                if self.attachments[place].item_id == id {
                    paths.push(self.attachments[place].stored_path.duplicate());
                    assert(views(paths@) =~= held.push(self.attachments@[place as int]@.path));
                    assert(views(paths@) =~= front + paths_of(files.take(place + 1), id));
                }
                place = place + 1;
            }
            assert(files.take(place as int) =~= files);
            assert(ids@.take(at + 1).drop_last() =~= ids@.take(at as int));
            at = at + 1;
        }
        assert(ids@.take(at as int) =~= ids@);
        paths
    }

    /// Deletes notes, and says which files are no longer needed.
    pub fn delete_items(&mut self, ids: Vec<i64>, most: usize) -> (result: Result<
        Vec<String>,
        CommandError,
    >)
        ensures
            match ids_fault(ids@, most) {
                Some(fault) => result == Err::<Vec<String>, CommandError>(fault) && final(self)@
                    == old(self)@,
                None => exists|sorted: Seq<i64>| #[trigger]
                    rising(sorted) && same_ids(sorted, ids@) && final(self)@ == notes_removed(
                        old(self)@,
                        sorted,
                    ) && (result matches Ok(paths) && views(paths@) == paths_of_all(
                        old(self)@.files,
                        sorted,
                    )),
            },
    {
        match item_ids(ids, most) {
            Err(fault) => Err(fault),
            Ok(sorted) => {
                let paths = self.remove_notes(sorted.as_slice());
                assert(rising(sorted@));
                Ok(paths)
            },
        }
    }

    /// The identifiers of the notes in a scope that are done.
    fn find_done(&self, scope: Scope) -> (ids: Vec<i64>)
        ensures
            ids@ == done_ids(self@.notes, scope),
    {
        let ghost all = self@.notes;
        let ghost wanted = |note: NoteView| note.done && in_scope(note.list, scope);
        let mut ids: Vec<i64> = Vec::new();
        let mut at: usize = 0;
        assert(ids@ =~= ids_where(all.take(0), wanted));
        while at < self.items.len()
            invariant
                all == views(self.items@),
                wanted == (|note: NoteView| note.done && in_scope(note.list, scope)),
                at <= self.items.len(),
                ids@ == ids_where(all.take(at as int), wanted),
            decreases self.items.len() - at,
        {
            assert(all.take(at + 1).drop_last() =~= all.take(at as int));
            assert(all.take(at + 1).last() == self.items@[at as int]@);
            let inside = match (scope, self.items[at].section_id) {
                (Scope::All, _) => true,
                (Scope::Inbox, None) => true,
                (Scope::List(list), Some(id)) => id == list,
                _ => false,
            };
            if self.items[at].done && inside {
                ids.push(self.items[at].id);
            }
            at = at + 1;
        }
        assert(all.take(at as int) =~= all);
        ids
    }

    /// The identifiers of the notes on a list.
    fn find_listed(&self, list: i64) -> (ids: Vec<i64>)
        ensures
            ids@ == listed_ids(self@.notes, list),
    {
        let ghost all = self@.notes;
        let ghost wanted = |note: NoteView| note.list == Some(list);
        let mut ids: Vec<i64> = Vec::new();
        let mut at: usize = 0;
        assert(ids@ =~= ids_where(all.take(0), wanted));
        while at < self.items.len()
            invariant
                all == views(self.items@),
                wanted == (|note: NoteView| note.list == Some(list)),
                at <= self.items.len(),
                ids@ == ids_where(all.take(at as int), wanted),
            decreases self.items.len() - at,
        {
            assert(all.take(at + 1).drop_last() =~= all.take(at as int));
            assert(all.take(at + 1).last() == self.items@[at as int]@);
            match self.items[at].section_id {
                Some(id) => {
                    if id == list {
                        ids.push(self.items[at].id);
                    }
                },
                None => {},
            }
            at = at + 1;
        }
        assert(all.take(at as int) =~= all);
        ids
    }

    /// Deletes the notes in a scope that are done, and says which files are no longer needed.
    pub fn clear_scope(&mut self, scope: Scope) -> (paths: Vec<String>)
        ensures
            final(self)@ == notes_removed(old(self)@, done_ids(old(self)@.notes, scope)),
            views(paths@) == paths_of_all(old(self)@.files, done_ids(old(self)@.notes, scope)),
    {
        let ids = self.find_done(scope);
        self.remove_notes(ids.as_slice())
    }

    /// Deletes the notes that are done in the scope that is open, the active list or the inbox, and
    /// says which files are no longer needed.
    pub fn clear_completed(&mut self) -> (paths: Vec<String>)
        ensures
            final(self)@ == notes_removed(
                old(self)@,
                done_ids(old(self)@.notes, open_scope(old(self)@.active)),
            ),
            views(paths@) == paths_of_all(
                old(self)@.files,
                done_ids(old(self)@.notes, open_scope(old(self)@.active)),
            ),
    {
        let scope = match self.active_section {
            Some(id) => Scope::List(id),
            None => Scope::Inbox,
        };
        self.clear_scope(scope)
    }

    /// Whether one of the identifiers belongs to no note.
    fn misses_any(&self, ids: &[i64]) -> (missing: bool)
        ensures
            missing == some_missing(self@.notes, ids@),
    {
        let mut at: usize = 0;
        while at < ids.len()
            invariant
                at <= ids.len(),
                forall|i: int| 0 <= i < at ==> has_note(self@.notes, #[trigger] ids@[i]),
            decreases ids.len() - at,
        {
            proof {
                lemma_note_of(self@.notes, ids@[at as int]);
            }
            if self.note(ids[at]).is_none() {
                assert(!has_note(self@.notes, ids@[at as int]));
                return true;
            }
            at = at + 1;
        }
        false
    }

    /// Moves notes to a list, or to the inbox. None is moved where one of them is gone.
    pub fn move_items(&mut self, ids: Vec<i64>, section_id: Option<i64>, most: usize, now: i64) -> (result:
        Result<(), CommandError>)
        ensures
            match ids_fault(ids@, most) {
                Some(fault) => result == Err::<(), CommandError>(fault) && final(self)@ == old(
                    self,
                )@,
                None => if ids@.len() == 0 {
                    result is Ok && final(self)@ == old(self)@
                } else if section_id matches Some(list) && !has_list(old(self)@.lists, list) {
                    result == Err::<(), CommandError>(CommandError::MissingList) && final(self)@
                        == old(self)@
                } else if some_missing(old(self)@.notes, ids@) {
                    result == Err::<(), CommandError>(CommandError::MissingNote) && final(self)@
                        == old(self)@
                } else {
                    result is Ok && exists|sorted: Seq<i64>| #[trigger]
                        rising(sorted) && same_ids(sorted, ids@) && final(self)@ == (NotebookView {
                            notes: all_after(
                                old(self)@.notes,
                                sorted,
                                ChangeView::Section(section_id),
                                now,
                            ),
                            ..old(self)@
                        })
                },
            },
    {
        if ids.len() == 0 {
            return Ok(());
        }
        let ghost given = ids@;
        let sorted = match item_ids(ids, most) {
            Err(fault) => {
                return Err(fault);
            },
            Ok(sorted) => sorted,
        };
        match section_id {
            Some(list) => {
                if !self.section_exists(list) {
                    return Err(CommandError::MissingList);
                }
            },
            None => {},
        }
        let missing = self.misses_any(sorted.as_slice());
        proof {
            if some_missing(self@.notes, given) {
                let i = choose|i: int|
                    0 <= i < given.len() && !has_note(self@.notes, #[trigger] given[i]);
                assert(given.contains(given[i]));
                assert(sorted@.contains(given[i]));
                let j = choose|j: int| 0 <= j < sorted@.len() && sorted@[j] == given[i];
                assert(!has_note(self@.notes, sorted@[j]));
            }
            if some_missing(self@.notes, sorted@) {
                let i = choose|i: int|
                    0 <= i < sorted@.len() && !has_note(self@.notes, #[trigger] sorted@[i]);
                assert(sorted@.contains(sorted@[i]));
                assert(given.contains(sorted@[i]));
                let j = choose|j: int| 0 <= j < given.len() && given[j] == sorted@[i];
                assert(!has_note(self@.notes, given[j]));
            }
        }
        if missing {
            return Err(CommandError::MissingNote);
        }
        self.change_notes(sorted.as_slice(), &NoteChange::Section(section_id), now);
        Ok(())
    }
}

impl Notebook {
    /// The contents of several notes, with an empty line between them.
    fn merged_content(&self, ids: &[i64]) -> (content: Option<String>)
        ensures
            opt_view(content) == contents_of(self@.notes, ids@),
    {
        let ghost notes = self@.notes;
        let mut content = String::new();
        let mut at: usize = 0;
        assert(ids@.take(0) =~= Seq::empty());
        while at < ids.len()
            invariant
                notes == self@.notes,
                at <= ids.len(),
                contents_of(notes, ids@.take(at as int)) == Some(content@),
            decreases ids.len() - at,
        {
            let ghost next = ids@.take(at + 1);
            proof {
                assert(next.drop_last() =~= ids@.take(at as int));
                assert(next.last() == ids@[at as int]);
                if contents_of(notes, next) is None {
                    lemma_missing_stays(notes, ids@, at + 1);
                }
                if at == 0 {
                    assert(content@ =~= Seq::empty());
                }
            }
            match self.note(ids[at]) {
                None => {
                    return None;
                },
                Some(note) => {
                    if at > 0 {
                        content.append("\n\n");
                    }
                    content.append(note.content.as_str());
                    assert(at == 0 ==> content@ =~= note.content@);
                },
            }
            at = at + 1;
        }
        assert(ids@.take(at as int) =~= ids@);
        Some(content)
    }

    /// Hands the files of some notes over to another one.
    fn move_files(&mut self, from: &[i64], to: i64)
        ensures
            final(self)@ == (NotebookView {
                files: files_moved(old(self)@.files, from@, to),
                ..old(self)@
            }),
    {
        let ghost before = self@;
        let ghost all = before.files;
        let mut at: usize = 0;
        while at < self.attachments.len()
            invariant
                all == before.files,
                self@.lists == before.lists,
                self@.notes == before.notes,
                self@.active == before.active,
                self.attachments@.len() == all.len(),
                at <= all.len(),
                forall|i: int|
                    0 <= i < at ==> (#[trigger] self.attachments@[i])@ == if from@.contains(
                        all[i].note,
                    ) {
                        NoteFileView { note: to, ..all[i] }
                    } else {
                        all[i]
                    },
                forall|i: int| at <= i < all.len() ==> (#[trigger] self.attachments@[i])@ == all[i],
            decreases all.len() - at,
        {
            assert(self.attachments@[at as int]@ == all[at as int]);
            if contains_id(from, self.attachments[at].item_id) {
                let mut file = self.attachments[at].duplicate();
                file.item_id = to;
                self.attachments.set(at, file);
            }
            at = at + 1;
        }
        assert(self@ =~= (NotebookView { files: files_moved(all, from@, to), ..before }));
    }

    /// Merges notes into the one with the smallest identifier, which takes over what is attached to
    /// the others. The others are gone.
    pub fn merge_items(&mut self, ids: Vec<i64>, most: usize, now: i64) -> (result: Result<
        (),
        CommandError,
    >)
        ensures
            match ids_fault(ids@, most) {
                Some(fault) => result == Err::<(), CommandError>(fault) && final(self)@ == old(
                    self,
                )@,
                None => exists|sorted: Seq<i64>| #[trigger]
                    rising(sorted) && same_ids(sorted, ids@) && match notes_merged(
                        old(self)@,
                        sorted,
                        now,
                    ) {
                        Ok(state) => result is Ok && final(self)@ == state,
                        Err(fault) => result == Err::<(), CommandError>(fault) && final(self)@
                            == old(self)@,
                    },
            },
    {
        let sorted = match item_ids(ids, most) {
            Err(fault) => {
                return Err(fault);
            },
            Ok(sorted) => sorted,
        };
        assert(rising(sorted@));
        if sorted.len() < 2 {
            return Err(CommandError::TooFewItems);
        }
        let content = match self.merged_content(sorted.as_slice()) {
            None => {
                return Err(CommandError::MissingNote);
            },
            Some(content) => content,
        };
        if chars_of(content.as_str()).len() > MAX_ITEM_CHARS {
            return Err(CommandError::LongMerge);
        }
        let ghost before = self@;
        let ghost merged = content@;
        let target = sorted[0];
        let mut others: Vec<i64> = Vec::new();
        let mut at: usize = 1;
        while at < sorted.len()
            invariant
                1 <= at <= sorted.len(),
                others@ == sorted@.subrange(1, at as int),
            decreases sorted.len() - at,
        {
            others.push(sorted[at]);
            assert(others@ =~= sorted@.subrange(1, at + 1));
            at = at + 1;
        }
        assert(others@ =~= sorted@.drop_first());
        let _ = self.change_note(target, &NoteChange::Merged(content), now);
        self.move_files(others.as_slice(), target);
        let ghost moved = self@;
        let _ = self.remove_notes(others.as_slice());
        proof {
            assert forall|i: int| 0 <= i < moved.files.len() implies !others@.contains(
                (#[trigger] moved.files[i]).note,
            ) by {
                if before.files.len() > i && others@.contains(before.files[i].note) {
                    if others@.contains(target) {
                        let j = choose|j: int| 0 <= j < others@.len() && others@[j] == target;
                        assert(sorted@[j + 1] == target);
                        assert(sorted@[0] < sorted@[j + 1]);
                    }
                }
            }
            lemma_all_kept(moved.files, others@);
            assert(self@ =~= NotebookView {
                notes: notes_without(
                    notes_after(before.notes, target, ChangeView::Merged(merged), now),
                    others@,
                ),
                files: files_moved(before.files, others@, target),
                ..before
            });
        }
        Ok(())
    }

    /// Opens a list, or the inbox.
    pub fn set_active_section(&mut self, id: Option<i64>) -> (result: Result<(), CommandError>)
        ensures
            if id matches Some(list) && !has_list(old(self)@.lists, list) {
                result == Err::<(), CommandError>(CommandError::MissingList) && final(self)@ == old(
                    self,
                )@
            } else {
                result is Ok && final(self)@ == (NotebookView { active: id, ..old(self)@ })
            },
    {
        match id {
            Some(list) => {
                if !self.section_exists(list) {
                    return Err(CommandError::MissingList);
                }
            },
            None => {},
        }
        self.active_section = id;
        Ok(())
    }

    /// The largest identifier of a list, or zero.
    pub fn last_list(&self) -> (id: i64)
        ensures
            id == largest(list_ids(self@.lists)),
    {
        let ghost all = self@.lists;
        let mut ids: Vec<i64> = Vec::new();
        let mut at: usize = 0;
        assert(ids@ =~= list_ids(all.take(0)));
        while at < self.sections.len()
            invariant
                all == views(self.sections@),
                at <= self.sections.len(),
                ids@ == list_ids(all.take(at as int)),
            decreases self.sections.len() - at,
        {
            ids.push(self.sections[at].id);
            assert(ids@ =~= list_ids(all.take(at + 1)));
            at = at + 1;
        }
        assert(all.take(at as int) =~= all);
        largest_id(ids.as_slice())
    }

    /// Opens the list that is called so, or makes one.
    pub fn open_list(&mut self, name: String, now: i64) -> (result: Result<i64, CommandError>)
        ensures
            settled_as(
                old(self)@,
                final(self)@,
                result,
                list_opened(old(self)@, name@, now),
            ),
    {
        let ghost before = self@;
        let known = match self.list_called(name.as_str()) {
            Some(list) => Some(list.id),
            None => None,
        };
        match known {
            Some(id) => {
                self.active_section = Some(id);
                Ok(id)
            },
            None => {
                let most = self.last_list();
                proof {
                    crate::entries::lemma_largest(list_ids(before.lists));
                }
                if most == i64::MAX {
                    return Err(CommandError::Full);
                }
                let id = most + 1;
                let ghost called = name@;
                self.sections.push(ListRow { id, name, created_at: now });
                self.active_section = Some(id);
                assert(self@ =~= (NotebookView {
                    lists: before.lists.push(ListView { id, name: called, created_at: now }),
                    active: Some(id),
                    ..before
                }));
                Ok(id)
            },
        }
    }

    /// Makes a list, or takes the one that is called so, and opens it.
    pub fn create_section(&mut self, name: &str, now: i64) -> (result: Result<i64, CommandError>)
        ensures
            settled_as(
                old(self)@,
                final(self)@,
                result,
                match name_fault(name@) {
                    Some(fault) => Err(fault),
                    None => list_opened(old(self)@, trimmed(name@), now),
                },
            ),
    {
        match section_name(name) {
            Err(fault) => Err(fault),
            Ok(name) => self.open_list(name, now),
        }
    }

    /// Renames a list. No other list may be called so.
    pub fn rename_section(&mut self, id: i64, name: &str) -> (result: Result<(), CommandError>)
        ensures
            match name_fault(name@) {
                Some(fault) => result == Err::<(), CommandError>(fault) && final(self)@ == old(
                    self,
                )@,
                None => if called_elsewhere(old(self)@.lists, trimmed(name@), id) {
                    result == Err::<(), CommandError>(CommandError::NameTaken) && final(self)@
                        == old(self)@
                } else {
                    result is Ok && final(self)@ == (NotebookView {
                        lists: lists_renamed(old(self)@.lists, id, trimmed(name@)),
                        ..old(self)@
                    })
                },
            },
    {
        let name = match section_name(name) {
            Err(fault) => {
                return Err(fault);
            },
            Ok(name) => name,
        };
        if self.section_name_exists(name.as_str(), id) {
            return Err(CommandError::NameTaken);
        }
        let ghost before = self@;
        let ghost all = before.lists;
        let mut at: usize = 0;
        while at < self.sections.len()
            invariant
                all == before.lists,
                self@.notes == before.notes,
                self@.files == before.files,
                self@.active == before.active,
                self.sections@.len() == all.len(),
                at <= all.len(),
                forall|i: int|
                    0 <= i < at ==> (#[trigger] self.sections@[i])@ == if all[i].id == id {
                        ListView { name: name@, ..all[i] }
                    } else {
                        all[i]
                    },
                forall|i: int| at <= i < all.len() ==> (#[trigger] self.sections@[i])@ == all[i],
            decreases all.len() - at,
        {
            assert(self.sections@[at as int]@ == all[at as int]);
            if self.sections[at].id == id {
                let row = ListRow {
                    id,
                    name: name.duplicate(),
                    created_at: self.sections[at].created_at,
                };
                self.sections.set(at, row);
            }
            at = at + 1;
        }
        assert(self@ =~= (NotebookView { lists: lists_renamed(all, id, name@), ..before }));
        Ok(())
    }

    /// Takes a list away from the notes on it.
    fn unlist(&mut self, list: i64)
        ensures
            final(self)@ == (NotebookView {
                notes: notes_unlisted(old(self)@.notes, list),
                ..old(self)@
            }),
    {
        let ghost before = self@;
        let ghost all = before.notes;
        let mut at: usize = 0;
        while at < self.items.len()
            invariant
                all == before.notes,
                self@.lists == before.lists,
                self@.files == before.files,
                self@.active == before.active,
                self.items@.len() == all.len(),
                at <= all.len(),
                forall|i: int|
                    0 <= i < at ==> (#[trigger] self.items@[i])@ == if all[i].list == Some(list) {
                        NoteView { list: None, ..all[i] }
                    } else {
                        all[i]
                    },
                forall|i: int| at <= i < all.len() ==> (#[trigger] self.items@[i])@ == all[i],
            decreases all.len() - at,
        {
            assert(self.items@[at as int]@ == all[at as int]);
            match self.items[at].section_id {
                Some(id) => {
                    if id == list {
                        let mut note = self.items[at].duplicate();
                        note.section_id = None;
                        self.items.set(at, note);
                    }
                },
                None => {},
            }
            at = at + 1;
        }
        assert(self@ =~= (NotebookView { notes: notes_unlisted(all, list), ..before }));
    }

    /// Takes a list out.
    fn drop_list(&mut self, id: i64)
        ensures
            final(self)@ == (NotebookView {
                lists: lists_without(old(self)@.lists, id),
                ..old(self)@
            }),
    {
        let ghost before = self@;
        let ghost keep = |list: ListView| list.id != id;
        let mut kept: Vec<ListRow> = Vec::new();
        let mut at: usize = 0;
        proof {
            reveal(Seq::filter);
            assert(before.lists.take(0).filter(keep) =~= Seq::empty());
            assert(views(kept@) =~= before.lists.take(0).filter(keep));
        }
        while at < self.sections.len()
            invariant
                self@ == before,
                before.lists == views(self.sections@),
                at <= self.sections.len(),
                keep == (|list: ListView| list.id != id),
                views(kept@) == before.lists.take(at as int).filter(keep),
            decreases self.sections.len() - at,
        {
            proof {
                reveal(Seq::filter);
                let next = before.lists.take(at + 1);
                assert(next.drop_last() =~= before.lists.take(at as int));
                assert(next.last() == self.sections@[at as int]@);
            }
            if self.sections[at].id != id {
                let ghost held = views(kept@);
                kept.push(self.sections[at].duplicate());
                assert(views(kept@) =~= held.push(self.sections@[at as int]@));
            }
            at = at + 1;
        }
        assert(before.lists.take(at as int) =~= before.lists);
        self.sections = kept;
        assert(self@ =~= (NotebookView { lists: lists_without(before.lists, id), ..before }));
    }

    /// Deletes a list. Its notes go to the inbox, or with it; then it says which files are no longer
    /// needed.
    pub fn delete_section(&mut self, id: i64, delete_items: bool) -> (result: Result<
        Vec<String>,
        CommandError,
    >)
        ensures
            if id <= 0 {
                result == Err::<Vec<String>, CommandError>(CommandError::InvalidList)
                    && final(self)@ == old(self)@
            } else if !has_list(old(self)@.lists, id) {
                result == Err::<Vec<String>, CommandError>(CommandError::MissingList)
                    && final(self)@ == old(self)@
            } else {
                &&& final(self)@ == list_deleted(old(self)@, id, delete_items)
                &&& result matches Ok(paths) && views(paths@) == if delete_items {
                    paths_of_all(old(self)@.files, listed_ids(old(self)@.notes, id))
                } else {
                    Seq::empty()
                }
            },
    {
        if id <= 0 {
            return Err(CommandError::InvalidList);
        }
        if !self.section_exists(id) {
            return Err(CommandError::MissingList);
        }
        let ghost before = self@;
        let mut paths: Vec<String> = Vec::new();
        assert(views(paths@) =~= Seq::empty());
        if delete_items {
            let ids = self.find_listed(id);
            paths = self.remove_notes(ids.as_slice());
        } else {
            self.unlist(id);
        }
        self.drop_list(id);
        match self.active_section {
            Some(active) => {
                if active == id {
                    self.active_section = None;
                }
            },
            None => {},
        }
        assert(self@ =~= list_deleted(before, id, delete_items));
        Ok(paths)
    }
}

/// What one of several notes lacks, all of them lack.
proof fn lemma_missing_stays(notes: Seq<NoteView>, ids: Seq<i64>, end: int)
    requires
        0 <= end <= ids.len(),
        contents_of(notes, ids.take(end)) is None,
    ensures
        contents_of(notes, ids) is None,
    decreases ids.len() - end,
{
    if end == ids.len() {
        assert(ids.take(end) =~= ids);
    } else {
        assert(ids.take(end + 1).drop_last() =~= ids.take(end));
        lemma_missing_stays(notes, ids, end + 1);
    }
}

/// Nothing is left out where nothing has to be.
proof fn lemma_all_kept(files: Seq<NoteFileView>, ids: Seq<i64>)
    requires
        forall|i: int| 0 <= i < files.len() ==> !ids.contains((#[trigger] files[i]).note),
    ensures
        files_without(files, ids) == files,
    decreases files.len(),
{
    reveal(Seq::filter);
    if files.len() > 0 {
        assert forall|i: int| 0 <= i < files.drop_last().len() implies !ids.contains(
            (#[trigger] files.drop_last()[i]).note,
        ) by {
            assert(files.drop_last()[i] == files[i]);
        }
        lemma_all_kept(files.drop_last(), ids);
        assert(files =~= files.drop_last().push(files.last()));
    } else {
        assert(files_without(files, ids) =~= files);
    }
}

} // verus!
