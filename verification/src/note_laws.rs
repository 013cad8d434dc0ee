//! What the commands of the notebook are for: each does what its name says to the notes and lists
//! that it is given, and leaves everything else as it was.

use vstd::prelude::*;

use crate::limits::MAX_ITEM_CHARS;
use crate::notebook::{
    all_after, contents_of, done_ids, files_without, has_list, has_note, ids_fault, ids_where,
    list_called, list_deleted, list_ids, list_of, list_opened, listed_ids, lists_renamed,
    lists_without, note_ids, note_of, notes_after, notes_merged, notes_removed, notes_without,
    paths_of, paths_of_all, rising, ChangeView, CommandError, ListView, NoteFileView, NoteView,
    NotebookView, Scope,
};
use crate::notebook_laws::{in_order, well_numbered};
use crate::text::ascii_lowercase;

verus! {

/// The two notes are the same but for what a change sets: a change sets what it names, and nothing
/// else.
pub open spec fn changed_as(before: NoteView, after: NoteView, change: ChangeView, now: i64) -> bool {
    &&& after.id == before.id
    &&& after.created_at == before.created_at
    &&& after.updated_at == now
    &&& match change {
        ChangeView::Done(done) => after.done == done && after.content == before.content
            && after.list == before.list,
        ChangeView::Content(content) => after.content == content && after.done == before.done
            && after.list == before.list,
        ChangeView::Section(list) => after.list == list && after.content == before.content
            && after.done == before.done,
        ChangeView::Moved(content, list) => after.content == content && after.list == list
            && after.done == before.done,
        ChangeView::Merged(content) => after.content == content && !after.done && after.list
            == before.list,
    }
}

/// Changing notes changes those that are named, each as it is told, and no others. No note comes,
/// goes or moves.
pub proof fn lemma_change_names_its_notes(
    notes: Seq<NoteView>,
    ids: Seq<i64>,
    change: ChangeView,
    now: i64,
)
    ensures
        all_after(notes, ids, change, now).len() == notes.len(),
        forall|i: int|
            0 <= i < notes.len() ==> if ids.contains((#[trigger] notes[i]).id) {
                changed_as(notes[i], all_after(notes, ids, change, now)[i], change, now)
            } else {
                all_after(notes, ids, change, now)[i] == notes[i]
            },
    decreases ids.len(),
{
    if ids.len() > 0 {
        let shorter = ids.drop_last();
        let last = ids.last();
        lemma_change_names_its_notes(notes, shorter, change, now);
        let mid = all_after(notes, shorter, change, now);
        let after = all_after(notes, ids, change, now);
        assert forall|i: int| 0 <= i < notes.len() implies if ids.contains((#[trigger] notes[i]).id) {
            changed_as(notes[i], after[i], change, now)
        } else {
            after[i] == notes[i]
        } by {
            assert(ids[ids.len() - 1] == last);
            if shorter.contains(notes[i].id) {
                assert(ids[shorter.index_of(notes[i].id)] == notes[i].id);
            }
            if ids.contains(notes[i].id) && notes[i].id != last {
                assert(shorter[ids.index_of(notes[i].id)] == notes[i].id);
            }
            assert(mid[i].id == notes[i].id);
        }
    }
}

/// Changing one note changes that one, as it is told, and no other.
pub proof fn lemma_change_names_its_note(
    notes: Seq<NoteView>,
    id: i64,
    change: ChangeView,
    now: i64,
)
    ensures
        notes_after(notes, id, change, now).len() == notes.len(),
        forall|i: int|
            0 <= i < notes.len() ==> if (#[trigger] notes[i]).id == id {
                changed_as(notes[i], notes_after(notes, id, change, now)[i], change, now)
            } else {
                notes_after(notes, id, change, now)[i] == notes[i]
            },
{
}

proof fn lemma_kept_notes(notes: Seq<NoteView>, ids: Seq<i64>)
    ensures
        forall|note: NoteView| #[trigger]
            notes_without(notes, ids).contains(note) <==> notes.contains(note) && !ids.contains(
                note.id,
            ),
    decreases notes.len(),
{
    reveal(Seq::filter);
    let kept = notes_without(notes, ids);
    if notes.len() > 0 {
        let front = notes.drop_last();
        let last = notes.last();
        let before = notes_without(front, ids);
        lemma_kept_notes(front, ids);
        assert(notes[notes.len() - 1] == last);
        assert forall|note: NoteView| #[trigger] kept.contains(note) <==> notes.contains(note)
            && !ids.contains(note.id) by {
            if kept.contains(note) {
                let k = kept.index_of(note);
                if k < before.len() {
                    assert(before[k] == note);
                    assert(before.contains(note));
                    assert(notes[front.index_of(note)] == note);
                }
            }
            if notes.contains(note) && !ids.contains(note.id) {
                if note == last {
                    assert(kept[kept.len() - 1] == note);
                } else {
                    assert(front[notes.index_of(note)] == note);
                    assert(front.contains(note));
                    assert(before.contains(note));
                    assert(kept[before.index_of(note)] == note);
                }
            }
        }
    }
}

proof fn lemma_kept_files(files: Seq<NoteFileView>, ids: Seq<i64>)
    ensures
        forall|file: NoteFileView| #[trigger]
            files_without(files, ids).contains(file) <==> files.contains(file) && !ids.contains(
                file.note,
            ),
    decreases files.len(),
{
    reveal(Seq::filter);
    let kept = files_without(files, ids);
    if files.len() > 0 {
        let front = files.drop_last();
        let last = files.last();
        let before = files_without(front, ids);
        lemma_kept_files(front, ids);
        assert(files[files.len() - 1] == last);
        assert forall|file: NoteFileView| #[trigger] kept.contains(file) <==> files.contains(file)
            && !ids.contains(file.note) by {
            if kept.contains(file) {
                let k = kept.index_of(file);
                if k < before.len() {
                    assert(before[k] == file);
                    assert(before.contains(file));
                    assert(files[front.index_of(file)] == file);
                }
            }
            if files.contains(file) && !ids.contains(file.note) {
                if file == last {
                    assert(kept[kept.len() - 1] == file);
                } else {
                    assert(front[files.index_of(file)] == file);
                    assert(front.contains(file));
                    assert(before.contains(file));
                    assert(kept[before.index_of(file)] == file);
                }
            }
        }
    }
}

proof fn lemma_kept_lists(lists: Seq<ListView>, id: i64)
    ensures
        forall|list: ListView| #[trigger]
            lists_without(lists, id).contains(list) <==> lists.contains(list) && list.id != id,
    decreases lists.len(),
{
    reveal(Seq::filter);
    let kept = lists_without(lists, id);
    if lists.len() > 0 {
        let front = lists.drop_last();
        let last = lists.last();
        let before = lists_without(front, id);
        lemma_kept_lists(front, id);
        assert(lists[lists.len() - 1] == last);
        assert forall|list: ListView| #[trigger] kept.contains(list) <==> lists.contains(list)
            && list.id != id by {
            if kept.contains(list) {
                let k = kept.index_of(list);
                if k < before.len() {
                    assert(before[k] == list);
                    assert(before.contains(list));
                    assert(lists[front.index_of(list)] == list);
                }
            }
            if lists.contains(list) && list.id != id {
                if list == last {
                    assert(kept[kept.len() - 1] == list);
                } else {
                    assert(front[lists.index_of(list)] == list);
                    assert(front.contains(list));
                    assert(before.contains(list));
                    assert(kept[before.index_of(list)] == list);
                }
            }
        }
    }
}

/// Taking notes out takes out the named ones with their files, and leaves every other note and file,
/// every list and the open list as they are.
pub proof fn lemma_removal_names_its_notes(notebook: NotebookView, ids: Seq<i64>)
    ensures
        ({
            let after = notes_removed(notebook, ids);
            &&& forall|note: NoteView| #[trigger]
                after.notes.contains(note) <==> notebook.notes.contains(note) && !ids.contains(
                    note.id,
                )
            &&& forall|file: NoteFileView| #[trigger]
                after.files.contains(file) <==> notebook.files.contains(file) && !ids.contains(
                    file.note,
                )
            &&& after.lists == notebook.lists
            &&& after.active == notebook.active
        }),
{
    lemma_kept_notes(notebook.notes, ids);
    lemma_kept_files(notebook.files, ids);
}

proof fn lemma_paths_of(files: Seq<NoteFileView>, id: i64)
    ensures
        forall|path: Seq<char>| #[trigger]
            paths_of(files, id).contains(path) <==> exists|i: int|
                0 <= i < files.len() && (#[trigger] files[i]).note == id && files[i].path == path,
    decreases files.len(),
{
    let paths = paths_of(files, id);
    if files.len() > 0 {
        let front = files.drop_last();
        let n = files.len() - 1;
        let before = paths_of(front, id);
        lemma_paths_of(front, id);
        assert forall|path: Seq<char>| #[trigger] paths.contains(path) <==> exists|i: int|
            0 <= i < files.len() && (#[trigger] files[i]).note == id && files[i].path == path by {
            if paths.contains(path) {
                let k = paths.index_of(path);
                if k < before.len() {
                    assert(before[k] == path);
                    assert(before.contains(path));
                    let i = choose|i: int|
                        0 <= i < front.len() && (#[trigger] front[i]).note == id && front[i].path
                            == path;
                    assert(files[i].note == id && files[i].path == path);
                } else {
                    assert(files[n].note == id && files[n].path == path);
                }
            }
            if exists|i: int|
                0 <= i < files.len() && (#[trigger] files[i]).note == id && files[i].path == path {
                let i = choose|i: int|
                    0 <= i < files.len() && (#[trigger] files[i]).note == id && files[i].path
                        == path;
                if i < n {
                    assert(front[i].note == id && front[i].path == path);
                    assert(before.contains(path));
                    assert(paths[before.index_of(path)] == path);
                } else {
                    assert(paths[paths.len() - 1] == path);
                }
            }
        }
    }
}

/// The files that are given up with notes are exactly those that were attached to them.
pub proof fn lemma_given_up_paths(files: Seq<NoteFileView>, ids: Seq<i64>)
    ensures
        forall|path: Seq<char>| #[trigger]
            paths_of_all(files, ids).contains(path) <==> exists|i: int|
                0 <= i < files.len() && ids.contains((#[trigger] files[i]).note) && files[i].path
                    == path,
    decreases ids.len(),
{
    let paths = paths_of_all(files, ids);
    if ids.len() > 0 {
        let front = ids.drop_last();
        let last = ids.last();
        let before = paths_of_all(files, front);
        let more = paths_of(files, last);
        lemma_given_up_paths(files, front);
        lemma_paths_of(files, last);
        assert(ids[ids.len() - 1] == last);
        assert forall|path: Seq<char>| #[trigger] paths.contains(path) <==> exists|i: int|
            0 <= i < files.len() && ids.contains((#[trigger] files[i]).note) && files[i].path
                == path by {
            if paths.contains(path) {
                let k = paths.index_of(path);
                if k < before.len() {
                    assert(before[k] == path);
                    assert(before.contains(path));
                    let i = choose|i: int|
                        0 <= i < files.len() && front.contains((#[trigger] files[i]).note)
                            && files[i].path == path;
                    assert(ids[front.index_of(files[i].note)] == files[i].note);
                    assert(ids.contains(files[i].note));
                } else {
                    assert(more[k - before.len()] == path);
                    assert(more.contains(path));
                    let i = choose|i: int|
                        0 <= i < files.len() && (#[trigger] files[i]).note == last && files[i].path
                            == path;
                    assert(ids.contains(files[i].note));
                }
            }
            if exists|i: int|
                0 <= i < files.len() && ids.contains((#[trigger] files[i]).note) && files[i].path
                    == path {
                let i = choose|i: int|
                    0 <= i < files.len() && ids.contains((#[trigger] files[i]).note)
                        && files[i].path == path;
                let k = ids.index_of(files[i].note);
                if k < front.len() {
                    assert(front[k] == files[i].note);
                    assert(front.contains(files[i].note));
                    assert(before.contains(path));
                    assert(paths[before.index_of(path)] == path);
                } else {
                    assert(files[i].note == last);
                    assert(more.contains(path));
                    assert(paths[before.len() + more.index_of(path)] == path);
                }
            }
        }
    }
}

proof fn lemma_ids_where(notes: Seq<NoteView>, wanted: spec_fn(NoteView) -> bool)
    ensures
        forall|id: i64| #[trigger]
            ids_where(notes, wanted).contains(id) <==> exists|i: int|
                0 <= i < notes.len() && wanted(#[trigger] notes[i]) && notes[i].id == id,
    decreases notes.len(),
{
    let ids = ids_where(notes, wanted);
    if notes.len() > 0 {
        let front = notes.drop_last();
        let n = notes.len() - 1;
        let before = ids_where(front, wanted);
        lemma_ids_where(front, wanted);
        assert forall|id: i64| #[trigger] ids.contains(id) <==> exists|i: int|
            0 <= i < notes.len() && wanted(#[trigger] notes[i]) && notes[i].id == id by {
            if ids.contains(id) {
                let k = ids.index_of(id);
                if k < before.len() {
                    assert(before[k] == id);
                    assert(before.contains(id));
                    let i = choose|i: int|
                        0 <= i < front.len() && wanted(#[trigger] front[i]) && front[i].id == id;
                    assert(wanted(notes[i]) && notes[i].id == id);
                } else {
                    assert(wanted(notes[n]) && notes[n].id == id);
                }
            }
            if exists|i: int|
                0 <= i < notes.len() && wanted(#[trigger] notes[i]) && notes[i].id == id {
                let i = choose|i: int|
                    0 <= i < notes.len() && wanted(#[trigger] notes[i]) && notes[i].id == id;
                if i < n {
                    assert(wanted(front[i]) && front[i].id == id);
                    assert(before.contains(id));
                    assert(ids[before.index_of(id)] == id);
                } else {
                    assert(ids[ids.len() - 1] == id);
                }
            }
        }
    }
}

/// In a notebook in order two notes with one identifier are one note.
proof fn lemma_one_note(notes: Seq<NoteView>, i: int, j: int)
    requires
        well_numbered(note_ids(notes)),
        0 <= i < notes.len(),
        0 <= j < notes.len(),
        notes[i].id == notes[j].id,
    ensures
        i == j,
{
    let ids = note_ids(notes);
    assert(ids[i] == ids[j]);
    if i < j {
        assert(ids[i] < ids[j]);
    } else if j < i {
        assert(ids[j] < ids[i]);
    }
}

/// Clearing takes out the notes that are done, of the inbox, of the list or of the whole notebook as
/// the scope says, with their files. Notes that are open, and done ones anywhere else, stay as they
/// are, and so do lists.
pub proof fn lemma_clearing_takes_done_notes(notebook: NotebookView, scope: Scope)
    requires
        in_order(notebook),
    ensures
        ({
            let after = notes_removed(notebook, done_ids(notebook.notes, scope));
            &&& forall|note: NoteView| #[trigger]
                after.notes.contains(note) <==> notebook.notes.contains(note) && !(note.done
                    && match scope {
                    Scope::Inbox => note.list == None::<i64>,
                    Scope::List(list) => note.list == Some(list),
                    Scope::All => true,
                })
            &&& forall|file: NoteFileView| #[trigger]
                after.files.contains(file) <==> notebook.files.contains(file) && has_note(
                    after.notes,
                    file.note,
                )
            &&& after.lists == notebook.lists
            &&& after.active == notebook.active
        }),
{
    let wanted = |note: NoteView| note.done && crate::notebook::in_scope(note.list, scope);
    let ids = done_ids(notebook.notes, scope);
    let notes = notebook.notes;
    lemma_ids_where(notes, wanted);
    lemma_removal_names_its_notes(notebook, ids);
    let after = notes_removed(notebook, ids);
    assert forall|note: NoteView| notes.contains(note) implies (#[trigger] ids.contains(note.id)
        <==> wanted(note)) by {
        let k = notes.index_of(note);
        if ids.contains(note.id) {
            let i = choose|i: int|
                0 <= i < notes.len() && wanted(#[trigger] notes[i]) && notes[i].id == note.id;
            lemma_one_note(notes, i, k);
        }
        if wanted(note) {
            assert(wanted(notes[k]) && notes[k].id == note.id);
        }
    }
    assert forall|note: NoteView| #[trigger] after.notes.contains(note) <==> notes.contains(note)
        && !(note.done && match scope {
        Scope::Inbox => note.list == None::<i64>,
        Scope::List(list) => note.list == Some(list),
        Scope::All => true,
    }) by {
        if notes.contains(note) {
            assert(ids.contains(note.id) <==> wanted(note));
        }
    }
    assert forall|file: NoteFileView| #[trigger] after.files.contains(file)
        <==> notebook.files.contains(file) && has_note(after.notes, file.note) by {
        lemma_file_with_note(notebook, ids, file);
    }
}

/// A file stays exactly where its note stays.
proof fn lemma_file_with_note(notebook: NotebookView, ids: Seq<i64>, file: NoteFileView)
    requires
        in_order(notebook),
    ensures
        notes_removed(notebook, ids).files.contains(file) <==> notebook.files.contains(file)
            && has_note(notes_removed(notebook, ids).notes, file.note),
{
    let after = notes_removed(notebook, ids);
    lemma_removal_names_its_notes(notebook, ids);
    if notebook.files.contains(file) {
        let f = notebook.files.index_of(file);
        assert(has_note(notebook.notes, notebook.files[f].note));
        let k = choose|k: int|
            0 <= k < notebook.notes.len() && (#[trigger] notebook.notes[k]).id == file.note;
        let note = notebook.notes[k];
        assert(notebook.notes.contains(note));
        if !ids.contains(file.note) {
            assert(after.notes.contains(note));
            assert(after.notes[after.notes.index_of(note)].id == file.note);
        }
        if has_note(after.notes, file.note) {
            let j = choose|j: int|
                0 <= j < after.notes.len() && (#[trigger] after.notes[j]).id == file.note;
            assert(after.notes.contains(after.notes[j]));
        }
    }
}

/// Deleting a list takes that list away and no other. Its notes go with it, or else to the inbox,
/// each as it is otherwise; notes that are not on it stay as they are. Where it was open, the inbox
/// is.
pub proof fn lemma_deleting_takes_one_list(notebook: NotebookView, id: i64, with_notes: bool)
    requires
        in_order(notebook),
    ensures
        ({
            let after = list_deleted(notebook, id, with_notes);
            &&& forall|list: ListView| #[trigger]
                after.lists.contains(list) <==> notebook.lists.contains(list) && list.id != id
            &&& with_notes ==> forall|note: NoteView| #[trigger]
                after.notes.contains(note) <==> notebook.notes.contains(note) && note.list != Some(
                    id,
                )
            &&& with_notes ==> forall|file: NoteFileView| #[trigger]
                after.files.contains(file) <==> notebook.files.contains(file) && has_note(
                    after.notes,
                    file.note,
                )
            &&& !with_notes ==> after.files == notebook.files && after.notes.len()
                == notebook.notes.len() && forall|i: int|
                0 <= i < notebook.notes.len() ==> {
                    let before = #[trigger] notebook.notes[i];
                    let note = after.notes[i];
                    &&& note.id == before.id && note.content == before.content && note.done
                        == before.done
                    &&& note.created_at == before.created_at && note.updated_at
                        == before.updated_at
                    &&& before.list == Some(id) ==> note.list is None
                    &&& before.list != Some(id) ==> note.list == before.list
                }
            &&& notebook.active == Some(id) ==> after.active is None
            &&& notebook.active != Some(id) ==> after.active == notebook.active
        }),
{
    lemma_kept_lists(notebook.lists, id);
    if with_notes {
        let wanted = |note: NoteView| note.list == Some(id);
        let ids = listed_ids(notebook.notes, id);
        let notes = notebook.notes;
        let after = notes_removed(notebook, ids);
        lemma_ids_where(notes, wanted);
        lemma_removal_names_its_notes(notebook, ids);
        assert forall|note: NoteView| #[trigger] after.notes.contains(note) <==> notes.contains(
            note,
        ) && note.list != Some(id) by {
            if notes.contains(note) {
                let k = notes.index_of(note);
                if ids.contains(note.id) {
                    let i = choose|i: int|
                        0 <= i < notes.len() && wanted(#[trigger] notes[i]) && notes[i].id
                            == note.id;
                    lemma_one_note(notes, i, k);
                }
                if note.list == Some(id) {
                    assert(wanted(notes[k]) && notes[k].id == note.id);
                }
            }
        }
        assert forall|file: NoteFileView| #[trigger] after.files.contains(file)
            <==> notebook.files.contains(file) && has_note(after.notes, file.note) by {
            lemma_file_with_note(notebook, ids, file);
        }
    }
}

/// Two names of lists are one but for the case of their letters.
pub open spec fn same_name(a: Seq<char>, b: Seq<char>) -> bool {
    ascii_lowercase(a) == ascii_lowercase(b)
}

proof fn lemma_called(lists: Seq<ListView>, name: Seq<char>)
    ensures
        match list_called(lists, name) {
            Some(list) => lists.contains(list) && same_name(list.name, name),
            None => forall|i: int|
                0 <= i < lists.len() ==> !same_name((#[trigger] lists[i]).name, name),
        },
    decreases lists.len(),
{
    if lists.len() > 0 {
        let rest = lists.drop_first();
        lemma_called(rest, name);
        assert(lists[0] == lists.first());
        match list_called(lists, name) {
            Some(list) => {
                if same_name(lists[0].name, name) {
                    assert(lists[0] == list);
                } else {
                    let k = rest.index_of(list);
                    assert(lists[k + 1] == list);
                }
            },
            None => {
                assert forall|i: int| 0 <= i < lists.len() implies !same_name(
                    (#[trigger] lists[i]).name,
                    name,
                ) by {
                    if i > 0 {
                        assert(rest[i - 1] == lists[i]);
                    }
                }
            },
        }
    }
}

/// Opening a list by name opens one of that name: the one that is there, whatever the case of its
/// letters, else a new one under a new identifier. Nothing else changes. Only a notebook that has
/// used up its identifiers refuses.
pub proof fn lemma_opening_opens(notebook: NotebookView, name: Seq<char>, now: i64)
    ensures
        match list_opened(notebook, name, now) {
            Ok((after, id)) => {
                &&& after.active == Some(id)
                &&& after.notes == notebook.notes && after.files == notebook.files
                &&& exists|i: int|
                    0 <= i < after.lists.len() && (#[trigger] after.lists[i]).id == id && same_name(
                        after.lists[i].name,
                        name,
                    )
                &&& (exists|i: int|
                    0 <= i < notebook.lists.len() && same_name(
                        (#[trigger] notebook.lists[i]).name,
                        name,
                    )) ==> after.lists == notebook.lists
                &&& !(exists|i: int|
                    0 <= i < notebook.lists.len() && same_name(
                        (#[trigger] notebook.lists[i]).name,
                        name,
                    )) ==> {
                    &&& after.lists == notebook.lists.push(
                        (ListView { id, name, created_at: now }),
                    )
                    &&& !has_list(notebook.lists, id)
                }
            },
            Err(fault) => fault == CommandError::Full && has_list(notebook.lists, i64::MAX),
        },
{
    lemma_called(notebook.lists, name);
    let ids = list_ids(notebook.lists);
    crate::entries::lemma_largest(ids);
    match list_opened(notebook, name, now) {
        Ok((after, id)) => {
            match list_called(notebook.lists, name) {
                Some(list) => {
                    let k = notebook.lists.index_of(list);
                    assert(after.lists[k].id == id);
                },
                None => {
                    assert(after.lists[after.lists.len() - 1].id == id);
                    if has_list(notebook.lists, id) {
                        let k = choose|k: int|
                            0 <= k < notebook.lists.len() && (#[trigger] notebook.lists[k]).id
                                == id;
                        assert(ids[k] <= crate::notebook::largest(ids));
                    }
                },
            }
        },
        Err(fault) => {
            lemma_largest_is_there(ids);
            let k = ids.index_of(i64::MAX);
            assert(notebook.lists[k].id == i64::MAX);
        },
    }
}

proof fn lemma_largest_is_there(ids: Seq<i64>)
    ensures
        crate::notebook::largest(ids) > 0 ==> ids.contains(crate::notebook::largest(ids) as i64),
        0 <= crate::notebook::largest(ids) <= i64::MAX,
    decreases ids.len(),
{
    if ids.len() > 0 {
        lemma_largest_is_there(ids.drop_last());
        assert(ids[ids.len() - 1] == ids.last());
        if ids.drop_last().contains(crate::notebook::largest(ids) as i64) {
            let k = ids.drop_last().index_of(crate::notebook::largest(ids) as i64);
            assert(ids[k] == crate::notebook::largest(ids) as i64);
        }
    }
}

/// Renaming a list gives that list the name, and no other.
pub proof fn lemma_renaming_names_its_list(lists: Seq<ListView>, id: i64, name: Seq<char>)
    ensures
        lists_renamed(lists, id, name).len() == lists.len(),
        forall|i: int|
            0 <= i < lists.len() ==> {
                let after = lists_renamed(lists, id, name)[i];
                &&& after.id == (#[trigger] lists[i]).id && after.created_at == lists[i].created_at
                &&& lists[i].id == id ==> after.name == name
                &&& lists[i].id != id ==> after.name == lists[i].name
            },
{
}

/// A note is found by its identifier, and a list by its own, exactly where it is there.
pub proof fn lemma_found_by_identifier(notebook: NotebookView, id: i64)
    ensures
        match note_of(notebook.notes, id) {
            Some(note) => notebook.notes.contains(note) && note.id == id,
            None => !has_note(notebook.notes, id),
        },
        match list_of(notebook.lists, id) {
            Some(list) => notebook.lists.contains(list) && list.id == id,
            None => !has_list(notebook.lists, id),
        },
{
    lemma_note_of(notebook.notes, id);
    lemma_list_of(notebook.lists, id);
}

proof fn lemma_note_of(notes: Seq<NoteView>, id: i64)
    ensures
        match note_of(notes, id) {
            Some(note) => notes.contains(note) && note.id == id,
            None => !has_note(notes, id),
        },
    decreases notes.len(),
{
    if notes.len() > 0 {
        let rest = notes.drop_first();
        lemma_note_of(rest, id);
        match note_of(notes, id) {
            Some(note) => {
                if notes[0].id != id {
                    assert(notes[rest.index_of(note) + 1] == note);
                }
            },
            None => {
                if has_note(notes, id) {
                    let k = choose|k: int| 0 <= k < notes.len() && (#[trigger] notes[k]).id == id;
                    assert(rest[k - 1].id == id);
                }
            },
        }
    }
}

proof fn lemma_list_of(lists: Seq<ListView>, id: i64)
    ensures
        match list_of(lists, id) {
            Some(list) => lists.contains(list) && list.id == id,
            None => !has_list(lists, id),
        },
    decreases lists.len(),
{
    if lists.len() > 0 {
        let rest = lists.drop_first();
        lemma_list_of(rest, id);
        match list_of(lists, id) {
            Some(list) => {
                if lists[0].id != id {
                    assert(lists[rest.index_of(list) + 1] == list);
                }
            },
            None => {
                if has_list(lists, id) {
                    let k = choose|k: int| 0 <= k < lists.len() && (#[trigger] lists[k]).id == id;
                    assert(rest[k - 1].id == id);
                }
            },
        }
    }
}

/// A list is found by its name, whatever the case of its letters, exactly where one is called so.
pub proof fn lemma_found_by_name(lists: Seq<ListView>, name: Seq<char>)
    ensures
        match list_called(lists, name) {
            Some(list) => lists.contains(list) && same_name(list.name, name),
            None => forall|i: int|
                0 <= i < lists.len() ==> !same_name((#[trigger] lists[i]).name, name),
        },
{
    lemma_called(lists, name);
}

/// Texts one behind the other, with an empty line between them.
pub open spec fn paragraphs(texts: Seq<Seq<char>>) -> Seq<char>
    decreases texts.len(),
{
    if texts.len() == 0 {
        Seq::empty()
    } else if texts.len() == 1 {
        texts[0]
    } else {
        paragraphs(texts.drop_last()) + seq!['\n', '\n'] + texts.last()
    }
}

/// A note with the identifier says the text.
pub open spec fn note_says(notes: Seq<NoteView>, id: i64, text: Seq<char>) -> bool {
    exists|i: int| 0 <= i < notes.len() && (#[trigger] notes[i]).id == id && notes[i].content == text
}

/// The texts are those of the notes with the identifiers.
pub open spec fn texts_of(notes: Seq<NoteView>, ids: Seq<i64>, texts: Seq<Seq<char>>) -> bool {
    texts.len() == ids.len() && forall|k: int|
        0 <= k < ids.len() ==> note_says(notes, ids[k], #[trigger] texts[k])
}

proof fn lemma_contents(notes: Seq<NoteView>, ids: Seq<i64>, texts: Seq<Seq<char>>)
    requires
        well_numbered(note_ids(notes)),
        texts_of(notes, ids, texts),
    ensures
        contents_of(notes, ids) == Some(paragraphs(texts)),
    decreases ids.len(),
{
    reveal_strlit("\n\n");
    assert("\n\n"@ =~= seq!['\n', '\n']);
    if ids.len() > 0 {
        let n = ids.len() - 1;
        assert(texts_of(notes, ids.drop_last(), texts.drop_last())) by {
            assert forall|k: int| 0 <= k < n implies note_says(
                notes,
                ids.drop_last()[k],
                #[trigger] texts.drop_last()[k],
            ) by {
                assert(texts.drop_last()[k] == texts[k]);
            }
        }
        lemma_contents(notes, ids.drop_last(), texts.drop_last());
        assert(texts[n] == texts.last());
        assert(note_says(notes, ids[n], texts[n]));
        let i = choose|i: int|
            0 <= i < notes.len() && (#[trigger] notes[i]).id == ids[n] && notes[i].content
                == texts[n];
        lemma_note_of(notes, ids[n]);
        let note = note_of(notes, ids[n])->0;
        lemma_one_note(notes, i, notes.index_of(note));
    }
}

proof fn lemma_contents_missing(notes: Seq<NoteView>, ids: Seq<i64>)
    ensures
        contents_of(notes, ids) is Some <==> forall|k: int|
            0 <= k < ids.len() ==> has_note(notes, #[trigger] ids[k]),
    decreases ids.len(),
{
    if ids.len() > 0 {
        let front = ids.drop_last();
        let n = ids.len() - 1;
        lemma_contents_missing(notes, front);
        lemma_note_of(notes, ids[n]);
        assert(ids[n] == ids.last());
        if contents_of(notes, ids) is Some {
            assert forall|k: int| 0 <= k < ids.len() implies has_note(notes, #[trigger] ids[k]) by {
                if k < n {
                    assert(front[k] == ids[k]);
                } else {
                    let note = note_of(notes, ids[n])->0;
                    assert(notes[notes.index_of(note)].id == ids[n]);
                }
            }
        }
        if forall|k: int| 0 <= k < ids.len() ==> has_note(notes, #[trigger] ids[k]) {
            assert forall|k: int| 0 <= k < front.len() implies has_note(
                notes,
                #[trigger] front[k],
            ) by {
                assert(front[k] == ids[k]);
            }
            assert(has_note(notes, ids[n]));
        }
    }
}

/// Merging notes puts their texts one behind the other, with an empty line between, into the first
/// of them, which is open again and stays where it is, made when it was made. The others are gone,
/// their files are attached to the first, and every other note and file and every list is as it was.
/// Notes are merged where there are two of them or more, all are there and the text is not too long.
pub proof fn lemma_merging_joins(
    notebook: NotebookView,
    ids: Seq<i64>,
    texts: Seq<Seq<char>>,
    now: i64,
)
    requires
        in_order(notebook),
        rising(ids),
        texts_of(notebook.notes, ids, texts),
    ensures
        notes_merged(notebook, ids, now) is Ok <==> ids.len() >= 2 && paragraphs(texts).len()
            <= MAX_ITEM_CHARS,
        notes_merged(notebook, ids, now) matches Err(fault) ==> fault == if ids.len() < 2 {
            CommandError::TooFewItems
        } else {
            CommandError::LongMerge
        },
        notes_merged(notebook, ids, now) matches Ok(after) ==> {
            &&& forall|old_note: NoteView| #[trigger]
                notebook.notes.contains(old_note) && old_note.id == ids[0] ==> exists|
                    note: NoteView,
                | #[trigger]
                    after.notes.contains(note) && note.id == ids[0] && note.list == old_note.list
                        && note.created_at == old_note.created_at && note.updated_at == now
                        && !note.done && note.content == paragraphs(texts)
            &&& forall|note: NoteView| #[trigger]
                after.notes.contains(note) && note.id != ids[0] <==> notebook.notes.contains(note)
                    && !ids.contains(note.id)
            &&& forall|note: NoteView, other: NoteView|
                #[trigger] after.notes.contains(note) && #[trigger] after.notes.contains(other)
                    && note.id == other.id ==> note == other
            &&& after.files.len() == notebook.files.len()
            &&& forall|i: int|
                0 <= i < after.files.len() ==> {
                    let before = #[trigger] notebook.files[i];
                    let file = after.files[i];
                    &&& file.id == before.id && file.name == before.name && file.path == before.path
                    &&& file.media_type == before.media_type && file.size == before.size
                        && file.created_at == before.created_at
                    &&& file.note == if ids.contains(before.note) {
                        ids[0]
                    } else {
                        before.note
                    }
                }
            &&& after.lists == notebook.lists
            &&& after.active == notebook.active
        },
{
    let notes = notebook.notes;
    lemma_contents(notes, ids, texts);
    if let Ok(after) = notes_merged(notebook, ids, now) {
        let others = ids.drop_first();
        let change = ChangeView::Merged(paragraphs(texts));
        let changed = notes_after(notes, ids[0], change, now);
        lemma_change_names_its_note(notes, ids[0], change, now);
        lemma_kept_notes(changed, others);
        assert(after.notes == notes_without(changed, others));
        assert forall|id: i64| #[trigger] ids.contains(id) <==> id == ids[0] || others.contains(
            id,
        ) by {
            if ids.contains(id) && id != ids[0] {
                assert(others[ids.index_of(id) - 1] == id);
            }
            if others.contains(id) {
                assert(ids[others.index_of(id) + 1] == id);
            }
        }
        assert(!others.contains(ids[0])) by {
            if others.contains(ids[0]) {
                assert(ids[0] < ids[others.index_of(ids[0]) + 1]);
            }
        }
        assert forall|old_note: NoteView| #[trigger]
            notes.contains(old_note) && old_note.id == ids[0] implies exists|note: NoteView|
         #[trigger]
            after.notes.contains(note) && note.id == ids[0] && note.list == old_note.list
                && note.created_at == old_note.created_at && note.updated_at == now && !note.done
                && note.content == paragraphs(texts) by {
            let k = notes.index_of(old_note);
            assert(changed.contains(changed[k]));
            assert(after.notes.contains(changed[k]));
        }
        assert forall|note: NoteView| #[trigger] after.notes.contains(note) && note.id
            != ids[0] <==> notes.contains(note) && !ids.contains(note.id) by {
            if after.notes.contains(note) && note.id != ids[0] {
                let k = changed.index_of(note);
                assert(notes[k] == note);
            }
            if notes.contains(note) && !ids.contains(note.id) {
                let k = notes.index_of(note);
                assert(changed[k] == note);
                assert(changed.contains(note));
            }
        }
        assert forall|note: NoteView, other: NoteView|
            #[trigger] after.notes.contains(note) && #[trigger] after.notes.contains(other)
                && note.id == other.id implies note == other by {
            assert(changed.contains(note) && changed.contains(other));
            let i = changed.index_of(note);
            let j = changed.index_of(other);
            assert(notes[i].id == note.id && notes[j].id == other.id);
            lemma_one_note(notes, i, j);
        }
    }
}

/// Notes of which one is missing are not merged.
pub proof fn lemma_missing_note_not_merged(notebook: NotebookView, ids: Seq<i64>, now: i64)
    requires
        ids.len() >= 2,
        exists|k: int| 0 <= k < ids.len() && !has_note(notebook.notes, #[trigger] ids[k]),
    ensures
        notes_merged(notebook, ids, now) == Err::<NotebookView, CommandError>(
            CommandError::MissingNote,
        ),
{
    lemma_contents_missing(notebook.notes, ids);
}

/// Identifiers are taken where there are no more than are taken at once and all of them are positive.
pub proof fn lemma_identifiers_taken(ids: Seq<i64>, most: usize)
    ensures
        ids_fault(ids, most) is None <==> ids.len() <= most && forall|i: int|
            0 <= i < ids.len() ==> #[trigger] ids[i] > 0,
        ids_fault(ids, most) == Some(CommandError::TooManyItems) <==> ids.len() > most,
{
}

} // verus!
