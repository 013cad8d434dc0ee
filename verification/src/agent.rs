//! What an agent asks of the notebook, and what it is told.

use vstd::prelude::*;
use vstd::string::*;

use crate::companion::{
    allowed_list, limit_of, list_name_fault, validate_list_name, CompanionError, Policy, PolicyView,
    WriteMode, MAX_QUERY_CHARS, REFRESH,
};
use crate::limits::MAX_ITEM_CHARS;
use crate::notebook::{
    largest, list_called, list_ids, list_of, note_ids, note_of, notes_after, ChangeView, ListRow,
    ListView, NoteChange, NoteFileView, NoteRow, NoteView, Notebook, NotebookView,
};
use crate::plain::{opt_view, views, Plain};
use crate::text::{
    ascii_lowercase, chars_of, starts_with, text_eq, to_lowercase_ascii, trim, trimmed,
};

verus! {

/// A list, or the inbox.
#[derive(Debug, Clone, PartialEq, Eq)]
pub struct ListRef {
    pub id: Option<i64>,
    pub name: String,
}

/// A list, or the inbox.
pub struct RefView {
    pub id: Option<i64>,
    pub name: Seq<char>,
}

impl View for ListRef {
    type V = RefView;

    open spec fn view(&self) -> RefView {
        RefView { id: self.id, name: self.name@ }
    }
}

impl Plain for ListRef {
    fn duplicate(&self) -> (copy: Self) {
        ListRef { id: self.id, name: self.name.duplicate() }
    }

    fn same(&self, other: &Self) -> (equal: bool) {
        self.id == other.id && self.name.same(&other.name)
    }
}

/// The inbox.
pub open spec fn inbox() -> RefView {
    RefView { id: None, name: "Inbox"@ }
}

/// A result, with what it names.
pub open spec fn ref_view(result: Result<ListRef, CompanionError>) -> Result<
    RefView,
    CompanionError,
> {
    match result {
        Ok(list) => Ok(list@),
        Err(fault) => Err(fault),
    }
}

/// The list with an identifier; the inbox without one.
pub open spec fn list_by(lists: Seq<ListView>, id: Option<i64>) -> Result<RefView, CompanionError> {
    match id {
        None => Ok(inbox()),
        Some(id) => match list_of(lists, id) {
            Some(list) => Ok(RefView { id: Some(id), name: list.name }),
            None => Err(CompanionError::ListGone),
        },
    }
}

/// The list that is called so, but for the case of its letters. The inbox has a name too.
pub open spec fn list_for(lists: Seq<ListView>, name: Seq<char>) -> Result<RefView, CompanionError> {
    match list_name_fault(name) {
        Some(fault) => Err(fault),
        None => if ascii_lowercase(trimmed(name)) == "inbox"@ {
            Ok(inbox())
        } else {
            match list_called(lists, trimmed(name)) {
                Some(list) => Ok(RefView { id: Some(list.id), name: list.name }),
                None => Err(CompanionError::NoSuchList),
            }
        },
    }
}

/// The list that a request is about, whether or not it may be used.
pub open spec fn list_meant(
    policy: PolicyView,
    notebook: NotebookView,
    list_id: Option<i64>,
    list_name: Option<Seq<char>>,
    use_default: bool,
) -> Result<RefView, CompanionError> {
    match (list_id, list_name) {
        (Some(_), Some(_)) => Err(CompanionError::BothGiven),
        (Some(id), None) => if id <= 0 {
            Err(CompanionError::InvalidListId)
        } else {
            list_by(notebook.lists, Some(id))
        },
        (None, Some(name)) => list_for(notebook.lists, name),
        (None, None) => if !use_default {
            Err(CompanionError::ListRequired)
        } else {
            match policy.default_list {
                Some(name) => list_for(notebook.lists, name),
                None => list_by(notebook.lists, notebook.active),
            }
        },
    }
}

/// The list that a request is about, where it may be used.
pub open spec fn resolved(
    policy: PolicyView,
    notebook: NotebookView,
    list_id: Option<i64>,
    list_name: Option<Seq<char>>,
    use_default: bool,
) -> Result<RefView, CompanionError> {
    match list_meant(policy, notebook, list_id, list_name, use_default) {
        Err(fault) => Err(fault),
        Ok(list) => if allowed_list(policy, list.id) {
            Ok(list)
        } else {
            Err(CompanionError::ListNotPermitted)
        },
    }
}

/// The list with an identifier; the inbox without one.
pub fn list_by_id(notebook: &Notebook, id: Option<i64>) -> (result: Result<ListRef, CompanionError>)
    ensures
        ref_view(result) == list_by(notebook@.lists, id),
{
    match id {
        None => Ok(ListRef { id: None, name: "Inbox".to_owned() }),
        Some(number) => match notebook.list(number) {
            Some(list) => Ok(ListRef { id: Some(number), name: list.name.duplicate() }),
            None => Err(CompanionError::ListGone),
        },
    }
}

/// The list that is called so, but for the case of its letters.
pub fn list_by_name(notebook: &Notebook, name: &str) -> (result: Result<ListRef, CompanionError>)
    ensures
        ref_view(result) == list_for(notebook@.lists, name@),
{
    let name = match validate_list_name(name) {
        Err(fault) => {
            return Err(fault);
        },
        Ok(name) => name,
    };
    if text_eq(to_lowercase_ascii(name.as_str()).as_str(), "inbox") {
        return Ok(ListRef { id: None, name: "Inbox".to_owned() });
    }
    match notebook.list_called(name.as_str()) {
        Some(list) => Ok(ListRef { id: Some(list.id), name: list.name.duplicate() }),
        None => Err(CompanionError::NoSuchList),
    }
}

/// The list that a request is about, where it may be used.
pub fn resolve_list(
    notebook: &Notebook,
    policy: &Policy,
    list_id: Option<i64>,
    list_name: &Option<String>,
    use_default: bool,
) -> (result: Result<ListRef, CompanionError>)
    ensures
        ref_view(result) == resolved(
            policy@,
            notebook@,
            list_id,
            opt_view(*list_name),
            use_default,
        ),
{
    let meant = match (list_id, list_name) {
        (Some(_), Some(_)) => Err(CompanionError::BothGiven),
        (Some(id), None) => if id <= 0 {
            Err(CompanionError::InvalidListId)
        } else {
            list_by_id(notebook, Some(id))
        },
        (None, Some(name)) => list_by_name(notebook, name.as_str()),
        (None, None) => if !use_default {
            Err(CompanionError::ListRequired)
        } else {
            match &policy.default_list {
                Some(name) => list_by_name(notebook, name.as_str()),
                None => list_by_id(notebook, notebook.active_section),
            }
        },
    };
    match meant {
        Err(fault) => Err(fault),
        Ok(list) => if policy.allows_list(list.id) {
            Ok(list)
        } else {
            Err(CompanionError::ListNotPermitted)
        },
    }
}

/// Why a text cannot be a todo.
pub open spec fn content_fault(text: Seq<char>) -> Option<CompanionError> {
    if trimmed(text).len() == 0 {
        Some(CompanionError::EmptyContent)
    } else if trimmed(text).len() > MAX_ITEM_CHARS {
        Some(CompanionError::LongContent)
    } else {
        None
    }
}

/// The text of a todo, without the blanks around it.
pub fn validate_item_content(content: &str) -> (result: Result<String, CompanionError>)
    ensures
        match content_fault(content@) {
            Some(fault) => result == Err::<String, CompanionError>(fault),
            None => result matches Ok(kept) && kept@ == trimmed(content@),
        },
{
    let kept = trim(content);
    let count: usize = chars_of(kept.as_str()).len();
    if count == 0 {
        return Err(CompanionError::EmptyContent);
    }
    if count > MAX_ITEM_CHARS {
        return Err(CompanionError::LongContent);
    }
    Ok(kept)
}

/// A phrase that is not too long to be searched for.
pub fn validate_query(query: &str) -> (result: Result<(), CompanionError>)
    ensures
        result == if query@.len() <= MAX_QUERY_CHARS {
            Ok::<(), CompanionError>(())
        } else {
            Err(CompanionError::LongQuery)
        },
{
    if chars_of(query).len() <= MAX_QUERY_CHARS {
        Ok(())
    } else {
        Err(CompanionError::LongQuery)
    }
}

/// A part of a text begins at a place.
pub open spec fn part_at(text: Seq<char>, part: Seq<char>, at: int) -> bool {
    0 <= at <= text.len() && starts_with(text.skip(at), part)
}

/// A text has a part, whatever the case of its letters.
pub open spec fn mentions(text: Seq<char>, part: Seq<char>) -> bool {
    has_part(ascii_lowercase(text), ascii_lowercase(part))
}

fn begins_at(text: &[char], part: &[char], at: usize) -> (found: bool)
    requires
        at <= text@.len(),
    ensures
        found == part_at(text@, part@, at as int),
{
    let ghost rest = text@.skip(at as int);
    if part.len() > text.len() - at {
        return false;
    }
    let mut i: usize = 0;
    while i < part.len()
        invariant
            at <= text@.len(),
            rest == text@.skip(at as int),
            part.len() <= text.len() - at,
            i <= part.len(),
            forall|j: int| 0 <= j < i ==> rest[j] == part@[j],
        decreases part.len() - i,
    {
        assert(rest[i as int] == text@[at + i]);
        if text[at + i] != part[i] {
            assert(rest.take(part@.len() as int)[i as int] != part@[i as int]);
            return false;
        }
        i = i + 1;
    }
    assert(rest.take(part@.len() as int) =~= part@);
    true
}

/// A text has a part.
pub open spec fn has_part(text: Seq<char>, part: Seq<char>) -> bool {
    exists|at: int| #[trigger] part_at(text, part, at)
}

/// Whether a text has a part.
pub fn contains_part(text: &str, part: &str) -> (found: bool)
    ensures
        found == has_part(text@, part@),
{
    let characters = chars_of(text);
    let wanted = chars_of(part);
    let count: usize = characters.len();
    let mut at: usize = 0;
    loop
        invariant
            characters@ == text@,
            wanted@ == part@,
            count == characters@.len(),
            at <= count,
            forall|i: int| 0 <= i < at ==> !part_at(characters@, wanted@, i),
        decreases count - at,
    {
        if begins_at(characters.as_slice(), wanted.as_slice(), at) {
            assert(part_at(text@, part@, at as int));
            return true;
        }
        if at == count {
            return false;
        }
        at = at + 1;
    }
}

/// Whether a text has a part, whatever the case of its letters.
pub fn does_mention(text: &str, part: &str) -> (found: bool)
    ensures
        found == mentions(text@, part@),
{
    contains_part(to_lowercase_ascii(text).as_str(), to_lowercase_ascii(part).as_str())
}

/// Which notes are wanted.
pub struct Wanted {
    /// Only notes on this list, or in the inbox.
    pub list: Option<Option<i64>>,
    /// Only notes with this part, unless it is empty.
    pub part: String,
    /// Notes that are done, too.
    pub completed: bool,
}

/// A note is wanted.
pub open spec fn is_wanted(
    note: NoteView,
    list: Option<Option<i64>>,
    part: Seq<char>,
    completed: bool,
) -> bool {
    &&& list matches Some(only) ==> note.list == only
    &&& part.len() == 0 || mentions(note.content, part)
    &&& completed || !note.done
}

/// A note was changed later than another, or at the same time and made later.
pub open spec fn newer(a: NoteView, b: NoteView) -> bool {
    a.updated_at > b.updated_at || (a.updated_at == b.updated_at && a.id > b.id)
}

/// Notes with one more, in its place among them: the newest first.
pub open spec fn placed(notes: Seq<NoteView>, note: NoteView) -> Seq<NoteView>
    decreases notes.len(),
{
    if notes.len() == 0 || !newer(note, notes.last()) {
        notes.push(note)
    } else {
        placed(notes.drop_last(), note).push(notes.last())
    }
}

/// The wanted notes, the newest first.
pub open spec fn newest_wanted(
    notes: Seq<NoteView>,
    list: Option<Option<i64>>,
    part: Seq<char>,
    completed: bool,
) -> Seq<NoteView>
    decreases notes.len(),
{
    if notes.len() == 0 {
        Seq::empty()
    } else {
        let front = newest_wanted(notes.drop_last(), list, part, completed);
        if is_wanted(notes.last(), list, part, completed) {
            placed(front, notes.last())
        } else {
            front
        }
    }
}

/// The first of some notes, so many at most.
pub open spec fn first_of<T>(rows: Seq<T>, most: int) -> Seq<T> {
    if rows.len() <= most {
        rows
    } else {
        rows.take(most)
    }
}

proof fn lemma_placed_split(notes: Seq<NoteView>, note: NoteView, at: int)
    requires
        0 <= at <= notes.len(),
        forall|i: int| at <= i < notes.len() ==> newer(note, #[trigger] notes[i]),
        at > 0 ==> !newer(note, notes[at - 1]),
    ensures
        placed(notes, note) == notes.insert(at, note),
    decreases notes.len(),
{
    if at == notes.len() {
        assert(notes.insert(at, note) =~= notes.push(note));
    } else {
        let shorter = notes.drop_last();
        assert(newer(note, notes[notes.len() - 1]));
        assert forall|i: int| at <= i < shorter.len() implies newer(note, #[trigger] shorter[i]) by {
            assert(shorter[i] == notes[i]);
        }
        lemma_placed_split(shorter, note, at);
        assert(shorter.insert(at, note).push(notes.last()) =~= notes.insert(at, note));
    }
}

fn is_newer(a: &NoteRow, b: &NoteRow) -> (result: bool)
    ensures
        result == newer(a@, b@),
{
    a.updated_at > b.updated_at || (a.updated_at == b.updated_at && a.id > b.id)
}

fn place(notes: &mut Vec<NoteRow>, note: NoteRow)
    ensures
        views(final(notes)@) == placed(views(old(notes)@), note@),
{
    let ghost before = views(notes@);
    let mut at: usize = notes.len();
    while at > 0 && is_newer(&note, &notes[at - 1])
        invariant
            before == views(notes@),
            at <= notes.len(),
            forall|i: int| at <= i < before.len() ==> newer(note@, #[trigger] before[i]),
        decreases at,
    {
        assert(before[at - 1] == notes@[at - 1]@);
        at = at - 1;
    }
    proof {
        if at > 0 {
            assert(before[at - 1] == notes@[at - 1]@);
        }
        lemma_placed_split(before, note@, at as int);
    }
    let ghost added = note@;
    notes.insert(at, note);
    assert(views(notes@) =~= before.insert(at as int, added));
}

fn wants(note: &NoteRow, wanted: &Wanted) -> (result: bool)
    ensures
        result == is_wanted(note@, wanted.list, wanted.part@, wanted.completed),
{
    match wanted.list {
        Some(only) => {
            if note.section_id != only {
                return false;
            }
        },
        None => {},
    }
    if !wanted.completed && note.done {
        return false;
    }
    wanted.part.as_str().is_empty() || does_mention(note.content.as_str(), wanted.part.as_str())
}

fn find_newest(notebook: &Notebook, wanted: &Wanted) -> (notes: Vec<NoteRow>)
    ensures
        views(notes@) == newest_wanted(
            notebook@.notes,
            wanted.list,
            wanted.part@,
            wanted.completed,
        ),
{
    let ghost all = notebook@.notes;
    let mut found: Vec<NoteRow> = Vec::new();
    let mut at: usize = 0;
    assert(views(found@) =~= Seq::empty());
    assert(all.take(0) =~= Seq::empty());
    while at < notebook.items.len()
        invariant
            all == views(notebook.items@),
            at <= notebook.items.len(),
            views(found@) == newest_wanted(
                all.take(at as int),
                wanted.list,
                wanted.part@,
                wanted.completed,
            ),
        decreases notebook.items.len() - at,
    {
        proof {
            assert(all.take(at + 1).drop_last() =~= all.take(at as int));
            assert(all.take(at + 1).last() == notebook.items@[at as int]@);
        }
        if wants(&notebook.items[at], wanted) {
            place(&mut found, notebook.items[at].duplicate());
        }
        at = at + 1;
    }
    assert(all.take(at as int) =~= all);
    found
}

fn keep_first(notes: &mut Vec<NoteRow>, most: usize)
    ensures
        views(final(notes)@) == first_of(views(old(notes)@), most as int),
{
    let ghost before = views(notes@);
    if notes.len() > most {
        notes.truncate(most);
        assert(views(notes@) =~= before.take(most as int));
    }
}

/// A request for the notes on a list.
#[derive(Debug, Clone, PartialEq, Eq)]
pub struct ListItemsRequest {
    pub list_id: Option<i64>,
    pub list_name: Option<String>,
    pub query: Option<String>,
    pub include_completed: Option<bool>,
    pub limit: Option<u16>,
}

/// A request for notes with a phrase.
#[derive(Debug, Clone, PartialEq, Eq)]
pub struct SearchRequest {
    pub query: String,
    pub list_id: Option<i64>,
    pub list_name: Option<String>,
    pub include_completed: Option<bool>,
    pub limit: Option<u16>,
}

/// A request for a new todo.
#[derive(Debug, Clone, PartialEq, Eq)]
pub struct AddTodoRequest {
    pub content: String,
    pub list_id: Option<i64>,
    pub list_name: Option<String>,
}

/// A request for a change of a todo.
#[derive(Debug, Clone, PartialEq, Eq)]
pub struct UpdateTodoRequest {
    pub item_id: i64,
    pub content: String,
    pub list_id: Option<i64>,
    pub list_name: Option<String>,
}

/// A request to tick a todo off, or to open it again.
#[derive(Debug, Clone, PartialEq, Eq)]
pub struct SetDoneRequest {
    pub item_id: i64,
    pub done: bool,
}

/// A request for a new list.
#[derive(Debug, Clone, PartialEq, Eq)]
pub struct CreateListRequest {
    pub name: String,
}

/// What is told of a list.
#[derive(Debug, Clone, PartialEq, Eq)]
pub struct ListSummary {
    pub list: ListRef,
    pub open_count: u64,
    /// How many notes are done, where that may be told.
    pub completed_count: Option<u64>,
}

/// What is told of a list.
pub struct SummaryView {
    pub list: RefView,
    pub open: nat,
    pub completed: Option<nat>,
}

impl View for ListSummary {
    type V = SummaryView;

    open spec fn view(&self) -> SummaryView {
        SummaryView {
            list: self.list@,
            open: self.open_count as nat,
            completed: match self.completed_count {
                Some(count) => Some(count as nat),
                None => None,
            },
        }
    }
}

/// What is told of a file. Where it lies is not told.
#[derive(Debug, Clone, PartialEq, Eq)]
pub struct FileInfo {
    pub id: i64,
    pub name: String,
    pub media_type: String,
    pub size: i64,
}

/// What is told of a file.
pub struct InfoView {
    pub id: i64,
    pub name: Seq<char>,
    pub media_type: Seq<char>,
    pub size: i64,
}

impl View for FileInfo {
    type V = InfoView;

    open spec fn view(&self) -> InfoView {
        InfoView {
            id: self.id,
            name: self.name@,
            media_type: self.media_type@,
            size: self.size,
        }
    }
}

/// A note that is told of, with what is attached to it.
#[derive(Debug, Clone, PartialEq, Eq)]
pub struct ReadItem {
    pub note: NoteRow,
    pub attachments: Vec<FileInfo>,
}

/// A note that is told of.
pub struct ReadView {
    pub note: NoteView,
    pub files: Seq<InfoView>,
}

impl View for ReadItem {
    type V = ReadView;

    open spec fn view(&self) -> ReadView {
        ReadView { note: self.note@, files: views(self.attachments@) }
    }
}

/// A note that was found, with the list that it stands on.
#[derive(Debug, Clone, PartialEq, Eq)]
pub struct FoundItem {
    pub note: NoteRow,
    pub list: ListRef,
}

/// A note that was found.
pub struct FoundView {
    pub note: NoteView,
    pub list: RefView,
}

impl View for FoundItem {
    type V = FoundView;

    open spec fn view(&self) -> FoundView {
        FoundView { note: self.note@, list: self.list@ }
    }
}

/// How many notes of a list are done, or are not.
pub open spec fn count_of(notes: Seq<NoteView>, list: Option<i64>, done: bool) -> nat
    decreases notes.len(),
{
    if notes.len() == 0 {
        0
    } else {
        count_of(notes.drop_last(), list, done) + if notes.last().list == list
            && notes.last().done == done {
            1nat
        } else {
            0nat
        }
    }
}

/// What is told of a list.
pub open spec fn summary_of(policy: PolicyView, notebook: NotebookView, list: RefView) -> SummaryView {
    SummaryView {
        list,
        open: count_of(notebook.notes, list.id, false),
        completed: if policy.include_completed {
            Some(count_of(notebook.notes, list.id, true))
        } else {
            None
        },
    }
}

/// What is told of the lists that may be used.
pub open spec fn summaries(
    policy: PolicyView,
    notebook: NotebookView,
    lists: Seq<ListView>,
) -> Seq<SummaryView>
    decreases lists.len(),
{
    if lists.len() == 0 {
        Seq::empty()
    } else {
        let front = summaries(policy, notebook, lists.drop_last());
        if allowed_list(policy, Some(lists.last().id)) {
            front.push(
                summary_of(
                    policy,
                    notebook,
                    RefView { id: Some(lists.last().id), name: lists.last().name },
                ),
            )
        } else {
            front
        }
    }
}

/// What is told of the inbox and the lists that may be used.
pub open spec fn lists_told(policy: PolicyView, notebook: NotebookView) -> Seq<SummaryView> {
    (if policy.allow_inbox {
        seq![summary_of(policy, notebook, inbox())]
    } else {
        Seq::empty()
    }) + summaries(policy, notebook, notebook.lists)
}

fn count_notes(notebook: &Notebook, list: Option<i64>, done: bool) -> (count: u64)
    ensures
        count == count_of(notebook@.notes, list, done),
{
    let ghost all = notebook@.notes;
    let mut count: u64 = 0;
    let mut at: usize = 0;
    let length: usize = notebook.items.len();
    assert(all.take(0) =~= Seq::empty());
    while at < length
        invariant
            all == views(notebook.items@),
            length == notebook.items@.len(),
            at <= length,
            count <= at,
            count == count_of(all.take(at as int), list, done),
        decreases length - at,
    {
        proof {
            assert(all.take(at + 1).drop_last() =~= all.take(at as int));
            assert(all.take(at + 1).last() == notebook.items@[at as int]@);
        }
        if notebook.items[at].section_id == list && notebook.items[at].done == done {
            count = count + 1;
        }
        at = at + 1;
    }
    assert(all.take(at as int) =~= all);
    count
}

fn summarize(policy: &Policy, notebook: &Notebook, list: ListRef) -> (summary: ListSummary)
    ensures
        summary@ == summary_of(policy@, notebook@, list@),
{
    let open_count = count_notes(notebook, list.id, false);
    let completed_count = if policy.include_completed {
        Some(count_notes(notebook, list.id, true))
    } else {
        None
    };
    ListSummary { list, open_count, completed_count }
}

/// Tells of the inbox and the lists that may be used.
pub fn list_lists(policy: &Policy, notebook: &Notebook) -> (result: Result<
    Vec<ListSummary>,
    CompanionError,
>)
    ensures
        if policy@.read_enabled {
            result matches Ok(lists) && views(lists@) == lists_told(policy@, notebook@)
        } else {
            result == Err::<Vec<ListSummary>, CompanionError>(CompanionError::ReadsDisabled)
        },
{
    match policy.require_reads() {
        Err(fault) => {
            return Err(fault);
        },
        Ok(()) => {},
    }
    let mut told: Vec<ListSummary> = Vec::new();
    let ghost head = if policy@.allow_inbox {
        seq![summary_of(policy@, notebook@, inbox())]
    } else {
        Seq::empty()
    };
    if policy.allow_inbox {
        told.push(summarize(policy, notebook, ListRef { id: None, name: "Inbox".to_owned() }));
    }
    assert(views(told@) =~= head);
    let ghost all = notebook@.lists;
    let mut at: usize = 0;
    assert(all.take(0) =~= Seq::empty());
    assert(views(told@) =~= head + summaries(policy@, notebook@, all.take(0)));
    while at < notebook.sections.len()
        invariant
            all == views(notebook.sections@),
            at <= notebook.sections.len(),
            views(told@) == head + summaries(policy@, notebook@, all.take(at as int)),
        decreases notebook.sections.len() - at,
    {
        proof {
            assert(all.take(at + 1).drop_last() =~= all.take(at as int));
            assert(all.take(at + 1).last() == notebook.sections@[at as int]@);
        }
        let id = notebook.sections[at].id;
        if policy.allows_list(Some(id)) {
            let ghost held = views(told@);
            let name = notebook.sections[at].name.duplicate();
            let summary = summarize(policy, notebook, ListRef { id: Some(id), name });
            let ghost added = summary@;
            told.push(summary);
            assert(views(told@) =~= held.push(added));
            assert(views(told@) =~= head + summaries(policy@, notebook@, all.take(at + 1)));
        }
        at = at + 1;
    }
    assert(all.take(at as int) =~= all);
    Ok(told)
}

/// What is told of the files of a note.
pub open spec fn files_told(files: Seq<NoteFileView>, note: i64) -> Seq<InfoView>
    decreases files.len(),
{
    if files.len() == 0 {
        Seq::empty()
    } else {
        let front = files_told(files.drop_last(), note);
        if files.last().note == note {
            front.push(
                InfoView {
                    id: files.last().id,
                    name: files.last().name,
                    media_type: files.last().media_type,
                    size: files.last().size,
                },
            )
        } else {
            front
        }
    }
}

/// What is told of the files of a note.
pub fn attachment_metadata(notebook: &Notebook, item_id: i64) -> (files: Vec<FileInfo>)
    ensures
        views(files@) == files_told(notebook@.files, item_id),
{
    let ghost all = notebook@.files;
    let mut told: Vec<FileInfo> = Vec::new();
    let mut at: usize = 0;
    assert(all.take(0) =~= Seq::empty());
    assert(views(told@) =~= Seq::empty());
    while at < notebook.attachments.len()
        invariant
            all == views(notebook.attachments@),
            at <= notebook.attachments.len(),
            views(told@) == files_told(all.take(at as int), item_id),
        decreases notebook.attachments.len() - at,
    {
        proof {
            assert(all.take(at + 1).drop_last() =~= all.take(at as int));
            assert(all.take(at + 1).last() == notebook.attachments@[at as int]@);
        }
        let file = &notebook.attachments[at];
        if file.item_id == item_id {
            let ghost held = views(told@);
            let info = FileInfo {
                id: file.id,
                name: file.name.duplicate(),
                media_type: file.media_type.duplicate(),
                size: file.size,
            };
            let ghost added = info@;
            told.push(info);
            assert(views(told@) =~= held.push(added));
        }
        at = at + 1;
    }
    assert(all.take(at as int) =~= all);
    told
}

/// Notes that are done are told of too: the request asks for them and the policy permits it.
pub open spec fn completed_too(policy: PolicyView, requested: Option<bool>) -> bool {
    policy.include_completed && requested == Some(true)
}

/// Some notes, with what is told of their files.
pub open spec fn items_told(
    policy: PolicyView,
    notebook: NotebookView,
    notes: Seq<NoteView>,
) -> Seq<ReadView> {
    notes.map_values(
        |note: NoteView|
            ReadView {
                note,
                files: if policy.include_attachment_metadata {
                    files_told(notebook.files, note.id)
                } else {
                    Seq::empty()
                },
            },
    )
}

/// The phrase of a request, or none.
pub open spec fn phrase(query: Option<Seq<char>>) -> Seq<char> {
    match query {
        Some(text) => text,
        None => Seq::empty(),
    }
}

/// What is told of a list: the newest of the notes that may be told of.
pub open spec fn list_told(policy: PolicyView, notebook: NotebookView, request: ListItemsRequest) -> Result<
    (RefView, Seq<ReadView>),
    CompanionError,
> {
    if !policy.read_enabled {
        Err(CompanionError::ReadsDisabled)
    } else if phrase(opt_view(request.query)).len() > MAX_QUERY_CHARS {
        Err(CompanionError::LongQuery)
    } else {
        match resolved(
            policy,
            notebook,
            request.list_id,
            opt_view(request.list_name),
            true,
        ) {
            Err(fault) => Err(fault),
            Ok(list) => Ok(
                (
                    list,
                    items_told(
                        policy,
                        notebook,
                        first_of(
                            newest_wanted(
                                notebook.notes,
                                Some(list.id),
                                phrase(opt_view(request.query)),
                                completed_too(policy, request.include_completed),
                            ),
                            limit_of(policy, request.limit),
                        ),
                    ),
                ),
            ),
        }
    }
}

/// What is told of a list.
#[derive(Debug, Clone, PartialEq, Eq)]
pub struct ListContents {
    pub list: ListRef,
    pub items: Vec<ReadItem>,
    pub limit: usize,
}

/// Tells of the notes on a list.
pub fn read_list(policy: &Policy, notebook: &Notebook, request: &ListItemsRequest) -> (result: Result<
    ListContents,
    CompanionError,
>)
    ensures
        match list_told(policy@, notebook@, *request) {
            Err(fault) => result == Err::<ListContents, CompanionError>(fault),
            Ok((list, items)) => result matches Ok(contents) && contents.list@ == list && views(
                contents.items@,
            ) == items && contents.limit == limit_of(policy@, request.limit),
        },
{
    match policy.require_reads() {
        Err(fault) => {
            return Err(fault);
        },
        Ok(()) => {},
    }
    let part = match &request.query {
        Some(text) => text.duplicate(),
        None => String::new(),
    };
    assert(part@ =~= phrase(opt_view(request.query)));
    match validate_query(part.as_str()) {
        Err(fault) => {
            return Err(fault);
        },
        Ok(()) => {},
    }
    let list = match resolve_list(notebook, policy, request.list_id, &request.list_name, true) {
        Err(fault) => {
            return Err(fault);
        },
        Ok(list) => list,
    };
    let completed = policy.include_completed && match request.include_completed {
        Some(wanted) => wanted,
        None => false,
    };
    let limit = policy.result_limit(request.limit);
    let mut notes = find_newest(notebook, &Wanted { list: Some(list.id), part, completed });
    keep_first(&mut notes, limit);
    let ghost all = views(notes@);
    let mut items: Vec<ReadItem> = Vec::new();
    let mut at: usize = 0;
    assert(views(items@) =~= items_told(policy@, notebook@, all.take(0)));
    while at < notes.len()
        invariant
            all == views(notes@),
            at <= notes.len(),
            views(items@) == items_told(policy@, notebook@, all.take(at as int)),
        decreases notes.len() - at,
    {
        let attachments = if policy.include_attachment_metadata {
            attachment_metadata(notebook, notes[at].id)
        } else {
            Vec::new()
        };
        let ghost held = views(items@);
        let item = ReadItem { note: notes[at].duplicate(), attachments };
        let ghost added = item@;
        items.push(item);
        proof {
            assert(views(items@) =~= held.push(added));
            assert(all[at as int] == notes@[at as int]@);
            if !policy@.include_attachment_metadata {
                assert(added.files =~= Seq::empty());
            }
            assert(views(items@) =~= items_told(policy@, notebook@, all.take(at + 1)));
        }
        at = at + 1;
    }
    assert(all.take(at as int) =~= all);
    Ok(ListContents { list, items, limit })
}

/// The list that a note stands on.
pub open spec fn list_shown(notebook: NotebookView, list: Option<i64>) -> RefView {
    match list {
        None => inbox(),
        Some(id) => RefView {
            id: Some(id),
            name: match list_of(notebook.lists, id) {
                Some(row) => row.name,
                None => "Inbox"@,
            },
        },
    }
}

/// The notes on lists that may be used, with those lists.
pub open spec fn permitted(policy: PolicyView, notebook: NotebookView, notes: Seq<NoteView>) -> Seq<
    FoundView,
>
    decreases notes.len(),
{
    if notes.len() == 0 {
        Seq::empty()
    } else {
        let front = permitted(policy, notebook, notes.drop_last());
        if allowed_list(policy, notes.last().list) {
            front.push(
                FoundView {
                    note: notes.last(),
                    list: list_shown(notebook, notes.last().list),
                },
            )
        } else {
            front
        }
    }
}

/// How many notes are looked at for so many results.
pub open spec fn looked_at(limit: int) -> int {
    if limit * 20 <= 4_000 {
        limit * 20
    } else {
        4_000
    }
}

/// The list that a search is restricted to, if it is.
pub open spec fn search_scope(policy: PolicyView, notebook: NotebookView, request: SearchRequest) -> Result<
    Option<Option<i64>>,
    CompanionError,
> {
    if request.list_id is None && request.list_name is None {
        Ok(None)
    } else {
        match resolved(
            policy,
            notebook,
            request.list_id,
            opt_view(request.list_name),
            false,
        ) {
            Err(fault) => Err(fault),
            Ok(list) => Ok(Some(list.id)),
        }
    }
}

/// What a search finds: the newest of the notes that have the phrase and may be told of.
pub open spec fn search_told(policy: PolicyView, notebook: NotebookView, request: SearchRequest) -> Result<
    Seq<FoundView>,
    CompanionError,
> {
    let part = trimmed(request.query@);
    let limit = limit_of(policy, request.limit);
    if !policy.read_enabled {
        Err(CompanionError::ReadsDisabled)
    } else if part.len() > MAX_QUERY_CHARS {
        Err(CompanionError::LongQuery)
    } else if part.len() == 0 {
        Err(CompanionError::EmptyQuery)
    } else {
        match search_scope(policy, notebook, request) {
            Err(fault) => Err(fault),
            Ok(scope) => Ok(
                first_of(
                    permitted(
                        policy,
                        notebook,
                        first_of(
                            newest_wanted(
                                notebook.notes,
                                scope,
                                part,
                                completed_too(policy, request.include_completed),
                            ),
                            looked_at(limit),
                        ),
                    ),
                    limit,
                ),
            ),
        }
    }
}

/// What a search found.
#[derive(Debug, Clone, PartialEq, Eq)]
pub struct SearchResult {
    pub query: String,
    pub items: Vec<FoundItem>,
    pub limit: usize,
}

proof fn lemma_permitted_grows(
    policy: PolicyView,
    notebook: NotebookView,
    notes: Seq<NoteView>,
    end: int,
)
    requires
        0 <= end <= notes.len(),
    ensures
        permitted(policy, notebook, notes.take(end)).len() <= permitted(
            policy,
            notebook,
            notes,
        ).len(),
        permitted(policy, notebook, notes).take(
            permitted(policy, notebook, notes.take(end)).len() as int,
        ) == permitted(policy, notebook, notes.take(end)),
    decreases notes.len() - end,
{
    let part = permitted(policy, notebook, notes.take(end));
    if end == notes.len() {
        assert(notes.take(end) =~= notes);
        assert(part.take(part.len() as int) =~= part);
    } else {
        let next = permitted(policy, notebook, notes.take(end + 1));
        assert(notes.take(end + 1).drop_last() =~= notes.take(end));
        lemma_permitted_grows(policy, notebook, notes, end + 1);
        let all = permitted(policy, notebook, notes);
        assert(next.take(part.len() as int) =~= part);
        assert(all.take(part.len() as int) =~= all.take(next.len() as int).take(
            part.len() as int,
        ));
    }
}

/// Searches the notes for a phrase.
pub fn search(policy: &Policy, notebook: &Notebook, request: &SearchRequest) -> (result: Result<
    SearchResult,
    CompanionError,
>)
    ensures
        match search_told(policy@, notebook@, *request) {
            Err(fault) => result == Err::<SearchResult, CompanionError>(fault),
            Ok(items) => result matches Ok(found) && views(found.items@) == items && found.query@
                == trimmed(request.query@) && found.limit == limit_of(policy@, request.limit),
        },
{
    match policy.require_reads() {
        Err(fault) => {
            return Err(fault);
        },
        Ok(()) => {},
    }
    let query = trim(request.query.as_str());
    match validate_query(query.as_str()) {
        Err(fault) => {
            return Err(fault);
        },
        Ok(()) => {},
    }
    if query.as_str().is_empty() {
        return Err(CompanionError::EmptyQuery);
    }
    let scope = if request.list_id.is_none() && request.list_name.is_none() {
        None
    } else {
        match resolve_list(notebook, policy, request.list_id, &request.list_name, false) {
            Err(fault) => {
                return Err(fault);
            },
            Ok(list) => Some(list.id),
        }
    };
    let completed = policy.include_completed && match request.include_completed {
        Some(wanted) => wanted,
        None => false,
    };
    let limit = policy.result_limit(request.limit);
    let most: usize = if limit * 20 <= 4_000 {
        limit * 20
    } else {
        4_000
    };
    let part = query.duplicate();
    let mut notes = find_newest(notebook, &Wanted { list: scope, part, completed });
    keep_first(&mut notes, most);
    let ghost all = views(notes@);
    let mut items: Vec<FoundItem> = Vec::new();
    let mut at: usize = 0;
    assert(all.take(0) =~= Seq::empty());
    assert(views(items@) =~= permitted(policy@, notebook@, all.take(0)));
    while at < notes.len() && items.len() < limit
        invariant
            all == views(notes@),
            at <= notes.len(),
            items.len() <= limit,
            views(items@) == permitted(policy@, notebook@, all.take(at as int)),
        decreases notes.len() - at,
    {
        proof {
            assert(all.take(at + 1).drop_last() =~= all.take(at as int));
            assert(all.take(at + 1).last() == notes@[at as int]@);
        }
        let list = notes[at].section_id;
        if policy.allows_list(list) {
            let name = match list {
                None => "Inbox".to_owned(),
                Some(id) => match notebook.list(id) {
                    Some(row) => row.name.duplicate(),
                    None => "Inbox".to_owned(),
                },
            };
            let ghost held = views(items@);
            let item = FoundItem { note: notes[at].duplicate(), list: ListRef { id: list, name } };
            let ghost added = item@;
            items.push(item);
            assert(views(items@) =~= held.push(added));
        }
        at = at + 1;
    }
    proof {
        lemma_permitted_grows(policy@, notebook@, all, at as int);
        if at == notes.len() {
            assert(all.take(at as int) =~= all);
        } else {
            assert(views(items@).len() == limit);
            let whole = permitted(policy@, notebook@, all);
            if whole.len() <= limit {
                assert(whole.take(limit as int) =~= whole);
            }
        }
    }
    Ok(SearchResult { query, items, limit })
}

/// The notebook after a todo was added, with its identifier and its list.
pub open spec fn todo_added(
    policy: PolicyView,
    notebook: NotebookView,
    request: AddTodoRequest,
    now: i64,
) -> Result<(NotebookView, i64, RefView), CompanionError> {
    if policy.write_mode == WriteMode::ReadOnly {
        Err(CompanionError::ReadOnly)
    } else {
        match content_fault(request.content@) {
            Some(fault) => Err(fault),
            None => match resolved(
                policy,
                notebook,
                request.list_id,
                opt_view(request.list_name),
                true,
            ) {
                Err(fault) => Err(fault),
                Ok(list) => if largest(note_ids(notebook.notes)) >= i64::MAX {
                    Err(CompanionError::Full)
                } else {
                    let id = (largest(note_ids(notebook.notes)) + 1) as i64;
                    Ok(
                        (
                            NotebookView {
                                notes: notebook.notes.push(
                                    NoteView {
                                        id,
                                        list: list.id,
                                        content: trimmed(request.content@),
                                        done: false,
                                        created_at: now,
                                        updated_at: now,
                                    },
                                ),
                                ..notebook
                            },
                            id,
                            list,
                        ),
                    )
                },
            },
        }
    }
}

/// A todo that was written.
#[derive(Debug, Clone, PartialEq, Eq)]
pub struct WrittenTodo {
    pub id: i64,
    pub content: String,
    pub list: ListRef,
}

/// Adds a todo to a list.
pub fn add_todo(policy: &Policy, notebook: &mut Notebook, request: &AddTodoRequest, now: i64) -> (result:
    Result<WrittenTodo, CompanionError>)
    ensures
        match todo_added(policy@, old(notebook)@, *request, now) {
            Err(fault) => result == Err::<WrittenTodo, CompanionError>(fault) && final(notebook)@
                == old(notebook)@,
            Ok((state, id, list)) => final(notebook)@ == state && (result matches Ok(todo) && todo.id
                == id && todo.content@ == trimmed(request.content@) && todo.list@ == list),
        },
{
    match policy.require_todo_writes() {
        Err(fault) => {
            return Err(fault);
        },
        Ok(()) => {},
    }
    let content = match validate_item_content(request.content.as_str()) {
        Err(fault) => {
            return Err(fault);
        },
        Ok(content) => content,
    };
    let list = match resolve_list(
        &*notebook,
        policy,
        request.list_id,
        &request.list_name,
        true,
    ) {
        Err(fault) => {
            return Err(fault);
        },
        Ok(list) => list,
    };
    let ghost before = notebook@;
    let last = notebook.last_note();
    if last == i64::MAX {
        return Err(CompanionError::Full);
    }
    proof {
        crate::entries::lemma_largest(note_ids(before.notes));
    }
    let id = last + 1;
    let row = NoteRow {
        id,
        section_id: list.id,
        content: content.duplicate(),
        done: false,
        created_at: now,
        updated_at: now,
    };
    let ghost added = row@;
    notebook.items.push(row);
    assert(notebook@ =~= (NotebookView { notes: before.notes.push(added), ..before }));
    Ok(WrittenTodo { id, content, list })
}

/// The note that a request changes, where it may be changed.
pub open spec fn note_meant(policy: PolicyView, notebook: NotebookView, id: i64) -> Result<
    NoteView,
    CompanionError,
> {
    match note_of(notebook.notes, id) {
        None => Err(CompanionError::ItemGone),
        Some(note) => if allowed_list(policy, note.list) {
            Ok(note)
        } else {
            Err(CompanionError::ItemNotPermitted)
        },
    }
}

/// The notebook after a todo was changed, with its list.
pub open spec fn todo_updated(
    policy: PolicyView,
    notebook: NotebookView,
    request: UpdateTodoRequest,
    now: i64,
) -> Result<(NotebookView, RefView), CompanionError> {
    if policy.write_mode == WriteMode::ReadOnly {
        Err(CompanionError::ReadOnly)
    } else if request.item_id <= 0 {
        Err(CompanionError::InvalidItemId)
    } else {
        match content_fault(request.content@) {
            Some(fault) => Err(fault),
            None => match note_meant(policy, notebook, request.item_id) {
                Err(fault) => Err(fault),
                Ok(note) => match (if request.list_id is Some || request.list_name is Some {
                    resolved(
                        policy,
                        notebook,
                        request.list_id,
                        opt_view(request.list_name),
                        false,
                    )
                } else {
                    list_by(notebook.lists, note.list)
                }) {
                    Err(fault) => Err(fault),
                    Ok(list) => Ok(
                        (
                            NotebookView {
                                notes: notes_after(
                                    notebook.notes,
                                    request.item_id,
                                    ChangeView::Moved(trimmed(request.content@), list.id),
                                    now,
                                ),
                                ..notebook
                            },
                            list,
                        ),
                    ),
                },
            },
        }
    }
}

/// The list that a note stands on, where it may be changed.
fn find_note(policy: &Policy, notebook: &Notebook, id: i64) -> (result: Result<
    Option<i64>,
    CompanionError,
>)
    ensures
        match note_meant(policy@, notebook@, id) {
            Ok(note) => result == Ok::<Option<i64>, CompanionError>(note.list),
            Err(fault) => result == Err::<Option<i64>, CompanionError>(fault),
        },
{
    match notebook.note(id) {
        None => Err(CompanionError::ItemGone),
        Some(note) => if policy.allows_list(note.section_id) {
            Ok(note.section_id)
        } else {
            Err(CompanionError::ItemNotPermitted)
        },
    }
}

/// Changes a todo, and moves it to another list where one is named.
pub fn update_todo(
    policy: &Policy,
    notebook: &mut Notebook,
    request: &UpdateTodoRequest,
    now: i64,
) -> (result: Result<WrittenTodo, CompanionError>)
    ensures
        match todo_updated(policy@, old(notebook)@, *request, now) {
            Err(fault) => result == Err::<WrittenTodo, CompanionError>(fault) && final(notebook)@
                == old(notebook)@,
            Ok((state, list)) => final(notebook)@ == state && (result matches Ok(todo) && todo.id
                == request.item_id && todo.content@ == trimmed(request.content@) && todo.list@
                == list),
        },
{
    match policy.require_todo_writes() {
        Err(fault) => {
            return Err(fault);
        },
        Ok(()) => {},
    }
    if request.item_id <= 0 {
        return Err(CompanionError::InvalidItemId);
    }
    let content = match validate_item_content(request.content.as_str()) {
        Err(fault) => {
            return Err(fault);
        },
        Ok(content) => content,
    };
    let current = match find_note(policy, &*notebook, request.item_id) {
        Err(fault) => {
            return Err(fault);
        },
        Ok(current) => current,
    };
    let destination = if request.list_id.is_some() || request.list_name.is_some() {
        resolve_list(&*notebook, policy, request.list_id, &request.list_name, false)
    } else {
        list_by_id(&*notebook, current)
    };
    let list = match destination {
        Err(fault) => {
            return Err(fault);
        },
        Ok(list) => list,
    };
    let change = NoteChange::Moved(content.duplicate(), list.id);
    let _ = notebook.change_note(request.item_id, &change, now);
    Ok(WrittenTodo { id: request.item_id, content, list })
}

/// The notebook after a todo was ticked off or opened again.
pub open spec fn todo_set(
    policy: PolicyView,
    notebook: NotebookView,
    request: SetDoneRequest,
    now: i64,
) -> Result<NotebookView, CompanionError> {
    if policy.write_mode == WriteMode::ReadOnly {
        Err(CompanionError::ReadOnly)
    } else if request.item_id <= 0 {
        Err(CompanionError::InvalidItemId)
    } else {
        match note_meant(policy, notebook, request.item_id) {
            Err(fault) => Err(fault),
            Ok(_) => Ok(
                NotebookView {
                    notes: notes_after(
                        notebook.notes,
                        request.item_id,
                        ChangeView::Done(request.done),
                        now,
                    ),
                    ..notebook
                },
            ),
        }
    }
}

/// Ticks a todo off, or opens it again.
pub fn set_done(policy: &Policy, notebook: &mut Notebook, request: &SetDoneRequest, now: i64) -> (result:
    Result<(), CompanionError>)
    ensures
        match todo_set(policy@, old(notebook)@, *request, now) {
            Err(fault) => result == Err::<(), CompanionError>(fault) && final(notebook)@ == old(
                notebook,
            )@,
            Ok(state) => result is Ok && final(notebook)@ == state,
        },
{
    match policy.require_todo_writes() {
        Err(fault) => {
            return Err(fault);
        },
        Ok(()) => {},
    }
    if request.item_id <= 0 {
        return Err(CompanionError::InvalidItemId);
    }
    match find_note(policy, &*notebook, request.item_id) {
        Err(fault) => {
            return Err(fault);
        },
        Ok(_) => {},
    }
    let _ = notebook.change_note(request.item_id, &NoteChange::Done(request.done), now);
    Ok(())
}

/// The notebook after a list was made, with its identifier.
pub open spec fn list_created(
    policy: PolicyView,
    notebook: NotebookView,
    request: CreateListRequest,
    now: i64,
) -> Result<(NotebookView, i64), CompanionError> {
    if policy.write_mode != WriteMode::ManageLists {
        Err(CompanionError::CreationNotPermitted)
    } else if policy.allowed.len() > 0 {
        Err(CompanionError::CreationRestricted)
    } else {
        match list_name_fault(request.name@) {
            Some(fault) => Err(fault),
            None => if list_called(notebook.lists, trimmed(request.name@)) is Some {
                Err(CompanionError::NameTaken)
            } else if largest(list_ids(notebook.lists)) >= i64::MAX {
                Err(CompanionError::Full)
            } else {
                let id = (largest(list_ids(notebook.lists)) + 1) as i64;
                Ok(
                    (
                        NotebookView {
                            lists: notebook.lists.push(
                                ListView { id, name: trimmed(request.name@), created_at: now },
                            ),
                            ..notebook
                        },
                        id,
                    ),
                )
            },
        }
    }
}

/// Makes a list. No list may be called so already.
pub fn create_list(
    policy: &Policy,
    notebook: &mut Notebook,
    request: &CreateListRequest,
    now: i64,
) -> (result: Result<ListRef, CompanionError>)
    ensures
        match list_created(policy@, old(notebook)@, *request, now) {
            Err(fault) => result == Err::<ListRef, CompanionError>(fault) && final(notebook)@ == old(
                notebook,
            )@,
            Ok((state, id)) => final(notebook)@ == state && (result matches Ok(list) && list.id
                == Some(id) && list.name@ == trimmed(request.name@)),
        },
{
    if policy.write_mode != WriteMode::ManageLists {
        return Err(CompanionError::CreationNotPermitted);
    }
    if policy.allowed_list_ids.len() > 0 {
        return Err(CompanionError::CreationRestricted);
    }
    let name = match validate_list_name(request.name.as_str()) {
        Err(fault) => {
            return Err(fault);
        },
        Ok(name) => name,
    };
    if notebook.list_called(name.as_str()).is_some() {
        return Err(CompanionError::NameTaken);
    }
    let ghost before = notebook@;
    let last = notebook.last_list();
    if last == i64::MAX {
        return Err(CompanionError::Full);
    }
    proof {
        crate::entries::lemma_largest(list_ids(before.lists));
    }
    let id = last + 1;
    let row = ListRow { id, name: name.duplicate(), created_at: now };
    let ghost added = row@;
    notebook.sections.push(row);
    assert(notebook@ =~= (NotebookView { lists: before.lists.push(added), ..before }));
    Ok(ListRef { id: Some(id), name })
}

/// What wakes the window: this message and nothing else.
pub fn is_refresh(message: &[u8]) -> (refresh: bool)
    ensures
        refresh == (message@ == vstd::utf8::encode_utf8(REFRESH@)),
{
    crate::text::bytes_eq(message, REFRESH.as_bytes())
}

/// A policy that only lets an agent read lets none of its requests change the notebook.
pub proof fn lemma_read_only(
    policy: PolicyView,
    notebook: NotebookView,
    added: AddTodoRequest,
    updated: UpdateTodoRequest,
    set: SetDoneRequest,
    created: CreateListRequest,
    now: i64,
)
    requires
        policy.write_mode == WriteMode::ReadOnly,
    ensures
        todo_added(policy, notebook, added, now) is Err,
        todo_updated(policy, notebook, updated, now) is Err,
        todo_set(policy, notebook, set, now) is Err,
        list_created(policy, notebook, created, now) is Err,
{
}

pub(crate) proof fn lemma_placed_same(notes: Seq<NoteView>, note: NoteView)
    ensures
        forall|i: int|
            0 <= i < placed(notes, note).len() ==> #[trigger] placed(notes, note)[i] == note
                || notes.contains(placed(notes, note)[i]),
        placed(notes, note).len() == notes.len() + 1,
    decreases notes.len(),
{
    if notes.len() > 0 && newer(note, notes.last()) {
        lemma_placed_same(notes.drop_last(), note);
        let all = placed(notes, note);
        let front = placed(notes.drop_last(), note);
        assert forall|i: int| 0 <= i < all.len() implies #[trigger] all[i] == note
            || notes.contains(all[i]) by {
            if i < front.len() {
                assert(all[i] == front[i]);
                if front[i] != note {
                    let k = choose|k: int|
                        0 <= k < notes.drop_last().len() && notes.drop_last()[k] == front[i];
                    assert(notes[k] == front[i]);
                }
            } else {
                assert(all[i] == notes[notes.len() - 1]);
            }
        }
    }
}

pub(crate) proof fn lemma_wanted_only(
    notes: Seq<NoteView>,
    list: Option<Option<i64>>,
    part: Seq<char>,
    completed: bool,
)
    ensures
        forall|i: int|
            0 <= i < newest_wanted(notes, list, part, completed).len() ==> is_wanted(
                #[trigger] newest_wanted(notes, list, part, completed)[i],
                list,
                part,
                completed,
            ) && notes.contains(newest_wanted(notes, list, part, completed)[i]),
    decreases notes.len(),
{
    if notes.len() > 0 {
        let front = newest_wanted(notes.drop_last(), list, part, completed);
        lemma_wanted_only(notes.drop_last(), list, part, completed);
        lemma_placed_same(front, notes.last());
        let all = newest_wanted(notes, list, part, completed);
        assert forall|i: int| 0 <= i < all.len() implies is_wanted(
            #[trigger] all[i],
            list,
            part,
            completed,
        ) && notes.contains(all[i]) by {
            if all[i] == notes.last() && is_wanted(notes.last(), list, part, completed) {
                assert(notes[notes.len() - 1] == all[i]);
            } else {
                assert(front.contains(all[i]));
                let k = choose|k: int| 0 <= k < front.len() && front[k] == all[i];
                assert(is_wanted(front[k], list, part, completed));
                let m = choose|m: int|
                    0 <= m < notes.drop_last().len() && notes.drop_last()[m] == front[k];
                assert(notes[m] == all[i]);
            }
        }
    }
}

pub(crate) proof fn lemma_permitted_only(policy: PolicyView, notebook: NotebookView, notes: Seq<NoteView>)
    ensures
        forall|i: int|
            0 <= i < permitted(policy, notebook, notes).len() ==> {
                let item = #[trigger] permitted(policy, notebook, notes)[i];
                allowed_list(policy, item.note.list) && notes.contains(item.note)
            },
    decreases notes.len(),
{
    if notes.len() > 0 {
        let front = permitted(policy, notebook, notes.drop_last());
        lemma_permitted_only(policy, notebook, notes.drop_last());
        let all = permitted(policy, notebook, notes);
        assert forall|i: int| 0 <= i < all.len() implies {
            let item = #[trigger] all[i];
            allowed_list(policy, item.note.list) && notes.contains(item.note)
        } by {
            if i < front.len() {
                assert(all[i] == front[i]);
                let k = choose|k: int|
                    0 <= k < notes.drop_last().len() && notes.drop_last()[k] == front[i].note;
                assert(notes[k] == all[i].note);
            } else {
                assert(notes[notes.len() - 1] == all[i].note);
            }
        }
    }
}

/// A search tells only of notes that are there, stand on lists that may be used, have the phrase,
/// and are open unless the policy permits more; and of no more of them than the policy says.
pub proof fn lemma_search_within_policy(
    policy: PolicyView,
    notebook: NotebookView,
    request: SearchRequest,
)
    ensures
        search_told(policy, notebook, request) matches Ok(items) ==> {
            &&& items.len() <= limit_of(policy, request.limit)
            &&& forall|i: int|
                0 <= i < items.len() ==> {
                    let note = (#[trigger] items[i]).note;
                    &&& notebook.notes.contains(note)
                    &&& allowed_list(policy, note.list)
                    &&& mentions(note.content, trimmed(request.query@))
                    &&& note.done ==> policy.include_completed
                }
        },
{
    match search_told(policy, notebook, request) {
        Ok(items) => {
            let part = trimmed(request.query@);
            let completed = completed_too(policy, request.include_completed);
            let limit = limit_of(policy, request.limit);
            match search_scope(policy, notebook, request) {
                Ok(scope) => {
                    let wanted = newest_wanted(notebook.notes, scope, part, completed);
                    let seen = first_of(wanted, looked_at(limit));
                    lemma_wanted_only(notebook.notes, scope, part, completed);
                    lemma_permitted_only(policy, notebook, seen);
                    let all = permitted(policy, notebook, seen);
                    assert forall|i: int| 0 <= i < items.len() implies {
                        let note = (#[trigger] items[i]).note;
                        &&& notebook.notes.contains(note)
                        &&& allowed_list(policy, note.list)
                        &&& mentions(note.content, part)
                        &&& note.done ==> policy.include_completed
                    } by {
                        assert(items[i] == all[i]);
                        let k = choose|k: int| 0 <= k < seen.len() && seen[k] == all[i].note;
                        assert(seen[k] == wanted[k]);
                        assert(is_wanted(wanted[k], scope, part, completed));
                    }
                },
                Err(_) => {},
            }
        },
        Err(_) => {},
    }
}

/// Reading a list tells only of notes that are there and stand on that list, which may be used, and
/// that are open unless the policy permits more; of their files only where the policy permits it;
/// and of no more notes than the policy says.
pub proof fn lemma_reading_within_policy(
    policy: PolicyView,
    notebook: NotebookView,
    request: ListItemsRequest,
)
    ensures
        list_told(policy, notebook, request) matches Ok((list, items)) ==> {
            &&& allowed_list(policy, list.id)
            &&& items.len() <= limit_of(policy, request.limit)
            &&& forall|i: int|
                0 <= i < items.len() ==> {
                    let item = #[trigger] items[i];
                    &&& notebook.notes.contains(item.note)
                    &&& item.note.list == list.id
                    &&& item.note.done ==> policy.include_completed
                    &&& !policy.include_attachment_metadata ==> item.files.len() == 0
                }
        },
{
    match list_told(policy, notebook, request) {
        Ok((list, items)) => {
            let part = phrase(opt_view(request.query));
            let completed = completed_too(policy, request.include_completed);
            let wanted = newest_wanted(notebook.notes, Some(list.id), part, completed);
            lemma_wanted_only(notebook.notes, Some(list.id), part, completed);
            let seen = first_of(wanted, limit_of(policy, request.limit));
            assert forall|i: int| 0 <= i < items.len() implies {
                let item = #[trigger] items[i];
                &&& notebook.notes.contains(item.note)
                &&& item.note.list == list.id
                &&& item.note.done ==> policy.include_completed
                &&& !policy.include_attachment_metadata ==> item.files.len() == 0
            } by {
                assert(items[i].note == seen[i]);
                assert(seen[i] == wanted[i]);
                assert(is_wanted(wanted[i], Some(list.id), part, completed));
            }
        },
        Err(_) => {},
    }
}

/// The newest notes come first.
pub open spec fn newest_first(notes: Seq<NoteView>) -> bool {
    forall|i: int, j: int| 0 <= i < j < notes.len() ==> !newer(notes[j], notes[i])
}

proof fn lemma_placed_first(notes: Seq<NoteView>, note: NoteView)
    requires
        newest_first(notes),
    ensures
        newest_first(placed(notes, note)),
        placed(notes, note).contains(note),
        forall|i: int| 0 <= i < notes.len() ==> placed(notes, note).contains(#[trigger] notes[i]),
    decreases notes.len(),
{
    let all = placed(notes, note);
    lemma_placed_same(notes, note);
    if notes.len() == 0 || !newer(note, notes.last()) {
        assert forall|i: int, j: int| 0 <= i < j < all.len() implies !newer(all[j], all[i]) by {
            if j == notes.len() {
                assert(!newer(note, notes[notes.len() - 1]));
                if i < notes.len() - 1 {
                    assert(!newer(notes[notes.len() - 1], notes[i]));
                }
            }
        }
        assert(all[notes.len() as int] == note);
        assert forall|i: int| 0 <= i < notes.len() implies all.contains(#[trigger] notes[i]) by {
            assert(all[i] == notes[i]);
        }
    } else {
        let shorter = notes.drop_last();
        let front = placed(shorter, note);
        lemma_placed_first(shorter, note);
        lemma_placed_same(shorter, note);
        assert forall|i: int, j: int| 0 <= i < j < all.len() implies !newer(all[j], all[i]) by {
            if j == front.len() {
                if front[i] != note {
                    let k = choose|k: int| 0 <= k < shorter.len() && shorter[k] == front[i];
                    assert(!newer(notes[notes.len() - 1], notes[k]));
                }
            } else {
                assert(!newer(front[j], front[i]));
            }
        }
        let k = choose|k: int| 0 <= k < front.len() && front[k] == note;
        assert(all[k] == note);
        assert forall|i: int| 0 <= i < notes.len() implies all.contains(#[trigger] notes[i]) by {
            if i < shorter.len() {
                assert(shorter[i] == notes[i]);
                let m = choose|m: int| 0 <= m < front.len() && front[m] == notes[i];
                assert(all[m] == notes[i]);
            } else {
                assert(all[front.len() as int] == notes[i]);
            }
        }
    }
}

/// What is told of comes in order: the note that was changed last comes first, and none that is
/// wanted is passed over.
pub proof fn lemma_newest_first(
    notes: Seq<NoteView>,
    list: Option<Option<i64>>,
    part: Seq<char>,
    completed: bool,
)
    ensures
        newest_first(newest_wanted(notes, list, part, completed)),
        forall|i: int|
            0 <= i < notes.len() && is_wanted(#[trigger] notes[i], list, part, completed)
                ==> newest_wanted(notes, list, part, completed).contains(notes[i]),
    decreases notes.len(),
{
    if notes.len() > 0 {
        let front = newest_wanted(notes.drop_last(), list, part, completed);
        lemma_newest_first(notes.drop_last(), list, part, completed);
        lemma_placed_first(front, notes.last());
        let all = newest_wanted(notes, list, part, completed);
        assert forall|i: int|
            0 <= i < notes.len() && is_wanted(#[trigger] notes[i], list, part, completed) implies all.contains(
        notes[i]) by {
            if i < notes.len() - 1 {
                assert(notes.drop_last()[i] == notes[i]);
                assert(front.contains(notes[i]));
                let k = choose|k: int| 0 <= k < front.len() && front[k] == notes[i];
                assert(all.contains(front[k]));
            }
        }
    }
}

/// Whether the companion is set up, by what its own examination prints.
pub fn companion_ready(succeeded: bool, output: &str) -> (ready: bool)
    ensures
        ready == (succeeded && has_part(output@, "codex_mcp: configured"@) && has_part(
            output@,
            "companion_skill: installed"@,
        )),
{
    succeeded && contains_part(output, "codex_mcp: configured") && contains_part(
        output,
        "companion_skill: installed",
    )
}

/// What the companion is called for.
#[derive(Debug, Clone, Copy, PartialEq, Eq, Structural)]
pub enum CompanionCommand {
    Serve,
    ShowPolicy,
    Configure,
    Doctor,
    Install,
    Help,
    Unknown,
}

/// What the companion is called for. Without a word it serves; only `configure` takes more words,
/// and help is given whatever follows.
pub open spec fn command_meant(arguments: Seq<Seq<char>>) -> CompanionCommand {
    if arguments.len() == 0 {
        CompanionCommand::Serve
    } else {
        let word = arguments[0];
        let alone = arguments.len() == 1;
        if word == "serve"@ && alone {
            CompanionCommand::Serve
        } else if word == "show-policy"@ && alone {
            CompanionCommand::ShowPolicy
        } else if word == "configure"@ {
            CompanionCommand::Configure
        } else if word == "doctor"@ && alone {
            CompanionCommand::Doctor
        } else if word == "install-codex"@ && alone {
            CompanionCommand::Install
        } else if word == "help"@ || word == "--help"@ || word == "-h"@ {
            CompanionCommand::Help
        } else {
            CompanionCommand::Unknown
        }
    }
}

/// What the companion is called for.
pub fn companion_command(arguments: &[String]) -> (command: CompanionCommand)
    ensures
        command == command_meant(views(arguments@)),
{
    if arguments.len() == 0 {
        return CompanionCommand::Serve;
    }
    assert(views(arguments@)[0] == arguments@[0]@);
    let word = arguments[0].as_str();
    let alone = arguments.len() == 1;
    if text_eq(word, "serve") && alone {
        CompanionCommand::Serve
    } else if text_eq(word, "show-policy") && alone {
        CompanionCommand::ShowPolicy
    } else if text_eq(word, "configure") {
        CompanionCommand::Configure
    } else if text_eq(word, "doctor") && alone {
        CompanionCommand::Doctor
    } else if text_eq(word, "install-codex") && alone {
        CompanionCommand::Install
    } else if text_eq(word, "help") || text_eq(word, "--help") || text_eq(word, "-h") {
        CompanionCommand::Help
    } else {
        CompanionCommand::Unknown
    }
}

} // verus!
