//! What every change of the notebook keeps: each row has its own identifier, notes stand on lists
//! that are there, files are attached to notes that are there, and the open list is there.

use vstd::prelude::*;

use crate::entries::{lemma_largest, note_added, CandidateView};
use crate::notebook::{
    all_after, file_ids, files_without, has_list, has_note, largest, list_deleted, list_ids,
    list_opened, listed_ids, lists_renamed, lists_without, note_ids, notes_after, notes_merged,
    notes_removed, notes_without, rising, ChangeView, ListView, NoteFileView, NoteView,
    NotebookView,
};

verus! {

/// Identifiers that are positive and in rising order.
pub open spec fn well_numbered(ids: Seq<i64>) -> bool {
    rising(ids) && forall|i: int| 0 <= i < ids.len() ==> #[trigger] ids[i] > 0
}

/// Every note stands in the inbox or on a list that is there.
pub open spec fn notes_placed(notes: Seq<NoteView>, lists: Seq<ListView>) -> bool {
    forall|i: int|
        0 <= i < notes.len() ==> ((#[trigger] notes[i]).list matches Some(list) ==> has_list(
            lists,
            list,
        ))
}

/// Every file is attached to a note that is there.
pub open spec fn files_placed(files: Seq<NoteFileView>, notes: Seq<NoteView>) -> bool {
    forall|i: int| 0 <= i < files.len() ==> has_note(notes, (#[trigger] files[i]).note)
}

/// A notebook in order.
pub open spec fn in_order(notebook: NotebookView) -> bool {
    &&& well_numbered(list_ids(notebook.lists))
    &&& well_numbered(note_ids(notebook.notes))
    &&& well_numbered(file_ids(notebook.files))
    &&& notes_placed(notebook.notes, notebook.lists)
    &&& files_placed(notebook.files, notebook.notes)
    &&& notebook.active matches Some(list) ==> has_list(notebook.lists, list)
}

proof fn lemma_pushed(ids: Seq<i64>, id: i64)
    requires
        well_numbered(ids),
        id > largest(ids),
    ensures
        well_numbered(ids.push(id)),
{
    lemma_largest(ids);
    let longer = ids.push(id);
    assert forall|i: int, j: int| 0 <= i < j < longer.len() implies longer[i] < longer[j] by {
        if j == ids.len() {
            assert(ids[i] <= largest(ids));
        }
    }
}

proof fn lemma_note_filter(notes: Seq<NoteView>, ids: Seq<i64>)
    ensures
        well_numbered(note_ids(notes)) ==> well_numbered(note_ids(notes_without(notes, ids))),
        forall|i: int|
            0 <= i < notes_without(notes, ids).len() ==> notes.contains(
                #[trigger] notes_without(notes, ids)[i],
            ) && !ids.contains(notes_without(notes, ids)[i].id),
        forall|i: int|
            0 <= i < notes.len() && !ids.contains((#[trigger] notes[i]).id) ==> notes_without(
                notes,
                ids,
            ).contains(notes[i]),
    decreases notes.len(),
{
    reveal(Seq::filter);
    let kept = notes_without(notes, ids);
    if notes.len() > 0 {
        let front = notes.drop_last();
        let before = notes_without(front, ids);
        lemma_note_filter(front, ids);
        if well_numbered(note_ids(notes)) {
            let all = note_ids(notes);
            assert(note_ids(front) =~= all.drop_last());
            assert forall|i: int| 0 <= i < before.len() implies (#[trigger] before[i]).id
                < notes.last().id by {
                assert(front.contains(before[i]));
                let k = choose|k: int| 0 <= k < front.len() && front[k] == before[i];
                assert(all[k] < all[notes.len() - 1]);
            }
            let numbers = note_ids(kept);
            if !ids.contains(notes.last().id) {
                assert(kept == before.push(notes.last()));
                let old_numbers = note_ids(before);
                assert forall|i: int, j: int| 0 <= i < j < numbers.len() implies numbers[i]
                    < numbers[j] by {
                    if j < before.len() {
                        assert(old_numbers[i] < old_numbers[j]);
                    } else {
                        assert(before[i].id < notes.last().id);
                    }
                }
                assert forall|i: int| 0 <= i < numbers.len() implies #[trigger] numbers[i] > 0 by {
                    if i < before.len() {
                        assert(old_numbers[i] > 0);
                    } else {
                        assert(all[notes.len() - 1] > 0);
                    }
                }
            }
        }
        assert forall|i: int| 0 <= i < kept.len() implies notes.contains(#[trigger] kept[i])
            && !ids.contains(kept[i].id) by {
            if i < before.len() {
                assert(kept[i] == before[i]);
                let k = choose|k: int| 0 <= k < front.len() && front[k] == before[i];
                assert(notes[k] == kept[i]);
            } else {
                assert(kept[i] == notes[notes.len() - 1]);
            }
        }
        assert forall|i: int| 0 <= i < notes.len() && !ids.contains((#[trigger] notes[i]).id) implies kept.contains(
        notes[i]) by {
            if i < front.len() {
                assert(front[i] == notes[i]);
                let k = choose|k: int| 0 <= k < before.len() && before[k] == notes[i];
                assert(kept[k] == notes[i]);
            } else {
                assert(kept.last() == notes[i]);
                assert(kept[kept.len() - 1] == notes[i]);
            }
        }
    } else {
        assert(note_ids(kept) =~= Seq::empty());
    }
}

proof fn lemma_file_filter(files: Seq<NoteFileView>, ids: Seq<i64>)
    ensures
        well_numbered(file_ids(files)) ==> well_numbered(file_ids(files_without(files, ids))),
        forall|i: int|
            0 <= i < files_without(files, ids).len() ==> files.contains(
                #[trigger] files_without(files, ids)[i],
            ) && !ids.contains(files_without(files, ids)[i].note),
    decreases files.len(),
{
    reveal(Seq::filter);
    let kept = files_without(files, ids);
    if files.len() > 0 {
        let front = files.drop_last();
        let before = files_without(front, ids);
        lemma_file_filter(front, ids);
        if well_numbered(file_ids(files)) {
            let all = file_ids(files);
            assert(file_ids(front) =~= all.drop_last());
            assert forall|i: int| 0 <= i < before.len() implies (#[trigger] before[i]).id
                < files.last().id by {
                assert(front.contains(before[i]));
                let k = choose|k: int| 0 <= k < front.len() && front[k] == before[i];
                assert(all[k] < all[files.len() - 1]);
            }
            let numbers = file_ids(kept);
            if !ids.contains(files.last().note) {
                let old_numbers = file_ids(before);
                assert forall|i: int, j: int| 0 <= i < j < numbers.len() implies numbers[i]
                    < numbers[j] by {
                    if j < before.len() {
                        assert(old_numbers[i] < old_numbers[j]);
                    } else {
                        assert(before[i].id < files.last().id);
                    }
                }
                assert forall|i: int| 0 <= i < numbers.len() implies #[trigger] numbers[i] > 0 by {
                    if i < before.len() {
                        assert(old_numbers[i] > 0);
                    } else {
                        assert(all[files.len() - 1] > 0);
                    }
                }
            }
        }
        assert forall|i: int| 0 <= i < kept.len() implies files.contains(#[trigger] kept[i])
            && !ids.contains(kept[i].note) by {
            if i < before.len() {
                assert(kept[i] == before[i]);
                let k = choose|k: int| 0 <= k < front.len() && front[k] == before[i];
                assert(files[k] == kept[i]);
            } else {
                assert(kept[i] == files[files.len() - 1]);
            }
        }
    } else {
        assert(file_ids(kept) =~= Seq::empty());
    }
}

proof fn lemma_list_filter(lists: Seq<ListView>, id: i64)
    ensures
        well_numbered(list_ids(lists)) ==> well_numbered(list_ids(lists_without(lists, id))),
        forall|i: int|
            0 <= i < lists_without(lists, id).len() ==> lists.contains(
                #[trigger] lists_without(lists, id)[i],
            ),
        forall|i: int|
            0 <= i < lists.len() && (#[trigger] lists[i]).id != id ==> lists_without(
                lists,
                id,
            ).contains(lists[i]),
    decreases lists.len(),
{
    reveal(Seq::filter);
    let kept = lists_without(lists, id);
    if lists.len() > 0 {
        let front = lists.drop_last();
        let before = lists_without(front, id);
        lemma_list_filter(front, id);
        if well_numbered(list_ids(lists)) {
            let all = list_ids(lists);
            assert(list_ids(front) =~= all.drop_last());
            assert forall|i: int| 0 <= i < before.len() implies (#[trigger] before[i]).id
                < lists.last().id by {
                assert(front.contains(before[i]));
                let k = choose|k: int| 0 <= k < front.len() && front[k] == before[i];
                assert(all[k] < all[lists.len() - 1]);
            }
            let numbers = list_ids(kept);
            if lists.last().id != id {
                let old_numbers = list_ids(before);
                assert forall|i: int, j: int| 0 <= i < j < numbers.len() implies numbers[i]
                    < numbers[j] by {
                    if j < before.len() {
                        assert(old_numbers[i] < old_numbers[j]);
                    } else {
                        assert(before[i].id < lists.last().id);
                    }
                }
                assert forall|i: int| 0 <= i < numbers.len() implies #[trigger] numbers[i] > 0 by {
                    if i < before.len() {
                        assert(old_numbers[i] > 0);
                    } else {
                        assert(all[lists.len() - 1] > 0);
                    }
                }
            }
        }
        assert forall|i: int| 0 <= i < kept.len() implies lists.contains(#[trigger] kept[i]) by {
            if i < before.len() {
                assert(kept[i] == before[i]);
                let k = choose|k: int| 0 <= k < front.len() && front[k] == before[i];
                assert(lists[k] == kept[i]);
            } else {
                assert(kept[i] == lists[lists.len() - 1]);
            }
        }
        assert forall|i: int| 0 <= i < lists.len() && (#[trigger] lists[i]).id != id implies kept.contains(
        lists[i]) by {
            if i < front.len() {
                assert(front[i] == lists[i]);
                let k = choose|k: int| 0 <= k < before.len() && before[k] == lists[i];
                assert(kept[k] == lists[i]);
            } else {
                assert(kept[kept.len() - 1] == lists[i]);
            }
        }
    } else {
        assert(list_ids(kept) =~= Seq::empty());
    }
}

/// Adding a note keeps the notebook in order, and the note has an identifier that no note had.
pub proof fn lemma_adding_keeps_order(
    notebook: NotebookView,
    content: Seq<char>,
    candidates: Seq<CandidateView>,
    directory: Seq<char>,
    now: i64,
)
    requires
        in_order(notebook),
    ensures
        note_added(notebook, content, candidates, directory, now) matches Ok((after, id, _)) ==> {
            &&& in_order(after)
            &&& !has_note(notebook.notes, id)
        },
{
    match note_added(notebook, content, candidates, directory, now) {
        Ok((after, id, _)) => {
            let ids = note_ids(notebook.notes);
            let numbers = file_ids(notebook.files);
            lemma_largest(ids);
            lemma_largest(numbers);
            assert(note_ids(after.notes) =~= ids.push(id));
            lemma_pushed(ids, id);
            let longer = file_ids(after.files);
            assert forall|i: int| 0 <= i < longer.len() implies #[trigger] longer[i] > 0 && (i
                >= numbers.len() ==> longer[i] == largest(numbers) + 1 + i - numbers.len()) by {
                if i < numbers.len() {
                    assert(longer[i] == numbers[i]);
                }
            }
            assert forall|i: int, j: int| 0 <= i < j < longer.len() implies longer[i]
                < longer[j] by {
                if i < numbers.len() {
                    assert(longer[i] == numbers[i]);
                    assert(numbers[i] <= largest(numbers));
                    if j < numbers.len() {
                        assert(longer[j] == numbers[j]);
                    }
                }
            }
            assert forall|i: int| 0 <= i < after.files.len() implies has_note(
                after.notes,
                (#[trigger] after.files[i]).note,
            ) by {
                if i < notebook.files.len() {
                    assert(after.files[i] == notebook.files[i]);
                    let k = choose|k: int|
                        0 <= k < notebook.notes.len() && (#[trigger] notebook.notes[k]).id
                            == notebook.files[i].note;
                    assert(after.notes[k] == notebook.notes[k]);
                } else {
                    assert(after.notes[after.notes.len() - 1].id == id);
                }
            }
            assert forall|i: int| 0 <= i < after.notes.len() implies ((
            #[trigger] after.notes[i]).list matches Some(list) ==> has_list(after.lists, list)) by {
                if i < notebook.notes.len() {
                    assert(after.notes[i] == notebook.notes[i]);
                }
            }
            if has_note(notebook.notes, id) {
                let k = choose|k: int|
                    0 <= k < notebook.notes.len() && (#[trigger] notebook.notes[k]).id == id;
                assert(ids[k] <= largest(ids));
            }
        },
        Err(_) => {},
    }
}

/// Opening a list keeps the notebook in order, and the list that is opened is there.
pub proof fn lemma_opening_keeps_order(notebook: NotebookView, name: Seq<char>, now: i64)
    requires
        in_order(notebook),
    ensures
        list_opened(notebook, name, now) matches Ok((after, id)) ==> in_order(after) && has_list(
            after.lists,
            id,
        ) && after.active == Some(id),
{
    match list_opened(notebook, name, now) {
        Ok((after, id)) => {
            if crate::notebook::list_called(notebook.lists, name) is Some {
                lemma_called_is_there(notebook.lists, name);
            } else {
                let ids = list_ids(notebook.lists);
                lemma_largest(ids);
                assert(list_ids(after.lists) =~= ids.push(id));
                lemma_pushed(ids, id);
                assert forall|list: i64| has_list(notebook.lists, list) implies #[trigger] has_list(
                    after.lists,
                    list,
                ) by {
                    let k = choose|k: int|
                        0 <= k < notebook.lists.len() && (#[trigger] notebook.lists[k]).id == list;
                    assert(after.lists[k] == notebook.lists[k]);
                }
                assert(after.lists[after.lists.len() - 1].id == id);
                assert forall|i: int| 0 <= i < after.notes.len() implies ((
                #[trigger] after.notes[i]).list matches Some(list) ==> has_list(
                    after.lists,
                    list,
                )) by {
                    assert(after.notes[i] == notebook.notes[i]);
                }
            }
        },
        Err(_) => {},
    }
}

proof fn lemma_called_is_there(lists: Seq<ListView>, name: Seq<char>)
    ensures
        crate::notebook::list_called(lists, name) matches Some(list) ==> has_list(lists, list.id),
    decreases lists.len(),
{
    if lists.len() > 0 {
        let rest = lists.drop_first();
        lemma_called_is_there(rest, name);
        match crate::notebook::list_called(lists, name) {
            Some(list) => {
                if crate::text::ascii_lowercase(lists[0].name) == crate::text::ascii_lowercase(
                    name,
                ) {
                    assert(lists[0].id == list.id);
                } else {
                    let k = choose|k: int|
                        0 <= k < rest.len() && (#[trigger] rest[k]).id == list.id;
                    assert(lists[k + 1] == rest[k]);
                }
            },
            None => {},
        }
    }
}

/// A change puts notes only where they can stand.
pub open spec fn change_fits(change: ChangeView, lists: Seq<ListView>) -> bool {
    match change {
        ChangeView::Section(Some(list)) => has_list(lists, list),
        ChangeView::Moved(_, Some(list)) => has_list(lists, list),
        _ => true,
    }
}

/// Changing a note keeps the notebook in order.
pub proof fn lemma_change_keeps_order(
    notebook: NotebookView,
    id: i64,
    change: ChangeView,
    now: i64,
)
    requires
        in_order(notebook),
        change_fits(change, notebook.lists),
    ensures
        in_order(
            NotebookView { notes: notes_after(notebook.notes, id, change, now), ..notebook },
        ),
{
    let after = notes_after(notebook.notes, id, change, now);
    assert(note_ids(after) =~= note_ids(notebook.notes));
    assert forall|i: int| 0 <= i < notebook.files.len() implies has_note(
        after,
        (#[trigger] notebook.files[i]).note,
    ) by {
        let k = choose|k: int|
            0 <= k < notebook.notes.len() && (#[trigger] notebook.notes[k]).id
                == notebook.files[i].note;
        assert(after[k].id == notebook.notes[k].id);
    }
    assert forall|i: int| 0 <= i < after.len() implies ((#[trigger] after[i]).list matches Some(
        list,
    ) ==> has_list(notebook.lists, list)) by {
        assert(notebook.notes[i].list matches Some(list) ==> has_list(notebook.lists, list));
    }
}

/// Changing several notes keeps the notebook in order.
pub proof fn lemma_changes_keep_order(
    notebook: NotebookView,
    ids: Seq<i64>,
    change: ChangeView,
    now: i64,
)
    requires
        in_order(notebook),
        change_fits(change, notebook.lists),
    ensures
        in_order(NotebookView { notes: all_after(notebook.notes, ids, change, now), ..notebook }),
    decreases ids.len(),
{
    if ids.len() > 0 {
        let front = NotebookView {
            notes: all_after(notebook.notes, ids.drop_last(), change, now),
            ..notebook
        };
        lemma_changes_keep_order(notebook, ids.drop_last(), change, now);
        lemma_change_keeps_order(front, ids.last(), change, now);
    }
}

/// Taking notes out keeps the notebook in order, and leaves no file of theirs behind.
pub proof fn lemma_removing_keeps_order(notebook: NotebookView, ids: Seq<i64>)
    requires
        in_order(notebook),
    ensures
        in_order(notes_removed(notebook, ids)),
        forall|i: int|
            0 <= i < notes_removed(notebook, ids).files.len() ==> !ids.contains(
                (#[trigger] notes_removed(notebook, ids).files[i]).note,
            ),
{
    let after = notes_removed(notebook, ids);
    lemma_note_filter(notebook.notes, ids);
    lemma_file_filter(notebook.files, ids);
    assert forall|i: int| 0 <= i < after.notes.len() implies ((
    #[trigger] after.notes[i]).list matches Some(list) ==> has_list(after.lists, list)) by {
        let k = choose|k: int|
            0 <= k < notebook.notes.len() && notebook.notes[k] == after.notes[i];
        assert(notebook.notes[k].list matches Some(list) ==> has_list(notebook.lists, list));
    }
    assert forall|i: int| 0 <= i < after.files.len() implies has_note(
        after.notes,
        (#[trigger] after.files[i]).note,
    ) by {
        let k = choose|k: int|
            0 <= k < notebook.files.len() && notebook.files[k] == after.files[i];
        assert(has_note(notebook.notes, notebook.files[k].note));
        let m = choose|m: int|
            0 <= m < notebook.notes.len() && (#[trigger] notebook.notes[m]).id
                == notebook.files[k].note;
        assert(after.notes.contains(notebook.notes[m]));
        let p = choose|p: int| 0 <= p < after.notes.len() && after.notes[p] == notebook.notes[m];
        assert(after.notes[p].id == after.files[i].note);
    }
}

/// Merging notes keeps the notebook in order, loses no file, and leaves none of the merged notes but
/// the first.
pub proof fn lemma_merging_keeps_order(notebook: NotebookView, ids: Seq<i64>, now: i64)
    requires
        in_order(notebook),
        rising(ids),
    ensures
        notes_merged(notebook, ids, now) matches Ok(after) ==> {
            &&& in_order(after)
            &&& after.files.len() == notebook.files.len()
            &&& has_note(after.notes, ids[0])
            &&& forall|i: int| 1 <= i < ids.len() ==> !has_note(after.notes, #[trigger] ids[i])
        },
{
    match notes_merged(notebook, ids, now) {
        Ok(after) => {
            let others = ids.drop_first();
            let content = crate::notebook::contents_of(notebook.notes, ids)->0;
            let change = ChangeView::Merged(content);
            let changed = NotebookView {
                notes: notes_after(notebook.notes, ids[0], change, now),
                ..notebook
            };
            lemma_change_keeps_order(notebook, ids[0], change, now);
            lemma_note_filter(changed.notes, others);
            assert(!others.contains(ids[0])) by {
                if others.contains(ids[0]) {
                    let k = choose|k: int| 0 <= k < others.len() && others[k] == ids[0];
                    assert(ids[0] < ids[k + 1]);
                }
            }
            lemma_first_is_there(notebook.notes, ids);
            let place = choose|place: int|
                0 <= place < notebook.notes.len() && (#[trigger] notebook.notes[place]).id
                    == ids[0];
            assert(changed.notes[place].id == ids[0]);
            assert(after.notes.contains(changed.notes[place]));
            let kept = choose|kept: int|
                0 <= kept < after.notes.len() && after.notes[kept] == changed.notes[place];
            assert(after.notes[kept].id == ids[0]);
            assert(file_ids(after.files) =~= file_ids(notebook.files));
            assert forall|i: int| 0 <= i < after.files.len() implies has_note(
                after.notes,
                (#[trigger] after.files[i]).note,
            ) by {
                let file = notebook.files[i];
                if !others.contains(file.note) {
                    assert(has_note(changed.notes, changed.files[i].note));
                    let m = choose|m: int|
                        0 <= m < changed.notes.len() && (#[trigger] changed.notes[m]).id
                            == file.note;
                    assert(after.notes.contains(changed.notes[m]));
                    let p = choose|p: int|
                        0 <= p < after.notes.len() && after.notes[p] == changed.notes[m];
                    assert(after.notes[p].id == file.note);
                }
            }
            assert forall|i: int| 0 <= i < after.notes.len() implies ((
            #[trigger] after.notes[i]).list matches Some(list) ==> has_list(after.lists, list)) by {
                let k = choose|k: int|
                    0 <= k < changed.notes.len() && changed.notes[k] == after.notes[i];
                assert(changed.notes[k].list matches Some(list) ==> has_list(
                    changed.lists,
                    list,
                ));
            }
            assert forall|i: int| 1 <= i < ids.len() implies !has_note(
                after.notes,
                #[trigger] ids[i],
            ) by {
                assert(others[i - 1] == ids[i]);
                assert(others.contains(ids[i]));
            }
        },
        Err(_) => {},
    }
}

proof fn lemma_first_is_there(notes: Seq<NoteView>, ids: Seq<i64>)
    requires
        ids.len() > 0,
        crate::notebook::contents_of(notes, ids) is Some,
    ensures
        has_note(notes, ids[0]),
    decreases ids.len(),
{
    if ids.len() == 1 {
        lemma_found(notes, ids[0]);
    } else {
        lemma_first_is_there(notes, ids.drop_last());
    }
}

proof fn lemma_found(notes: Seq<NoteView>, id: i64)
    requires
        crate::notebook::note_of(notes, id) is Some,
    ensures
        has_note(notes, id),
    decreases notes.len(),
{
    if notes[0].id != id {
        let rest = notes.drop_first();
        lemma_found(rest, id);
        let k = choose|k: int| 0 <= k < rest.len() && (#[trigger] rest[k]).id == id;
        assert(notes[k + 1] == rest[k]);
    }
}

proof fn lemma_listed_ids(notes: Seq<NoteView>, list: i64)
    ensures
        forall|i: int|
            0 <= i < notes.len() && (#[trigger] notes[i]).list == Some(list) ==> listed_ids(
                notes,
                list,
            ).contains(notes[i].id),
    decreases notes.len(),
{
    if notes.len() > 0 {
        let front = notes.drop_last();
        lemma_listed_ids(front, list);
        let ids = listed_ids(notes, list);
        let before = listed_ids(front, list);
        assert forall|i: int| 0 <= i < notes.len() && (#[trigger] notes[i]).list == Some(
            list,
        ) implies ids.contains(notes[i].id) by {
            if i < front.len() {
                assert(front[i] == notes[i]);
                let k = choose|k: int| 0 <= k < before.len() && before[k] == notes[i].id;
                assert(ids[k] == notes[i].id);
            } else {
                assert(ids[ids.len() - 1] == notes[i].id);
            }
        }
    }
}

/// Deleting a list keeps the notebook in order; the list is gone, and no note stands on it.
pub proof fn lemma_deleting_keeps_order(notebook: NotebookView, id: i64, with_notes: bool)
    requires
        in_order(notebook),
    ensures
        in_order(list_deleted(notebook, id, with_notes)),
        !has_list(list_deleted(notebook, id, with_notes).lists, id),
{
    let after = list_deleted(notebook, id, with_notes);
    lemma_list_filter(notebook.lists, id);
    assert forall|list: i64| has_list(notebook.lists, list) && list != id implies #[trigger] has_list(
        after.lists,
        list,
    ) by {
        let k = choose|k: int|
            0 <= k < notebook.lists.len() && (#[trigger] notebook.lists[k]).id == list;
        assert(after.lists.contains(notebook.lists[k]));
        let p = choose|p: int| 0 <= p < after.lists.len() && after.lists[p] == notebook.lists[k];
        assert(after.lists[p].id == list);
    }
    if has_list(after.lists, id) {
        reveal(Seq::filter);
        lemma_gone(notebook.lists, id);
    }
    if with_notes {
        let ids = listed_ids(notebook.notes, id);
        lemma_removing_keeps_order(notebook, ids);
        lemma_note_filter(notebook.notes, ids);
        lemma_listed_ids(notebook.notes, id);
        assert forall|i: int| 0 <= i < after.notes.len() implies ((
        #[trigger] after.notes[i]).list matches Some(list) ==> has_list(after.lists, list)) by {
            let k = choose|k: int|
                0 <= k < notebook.notes.len() && notebook.notes[k] == after.notes[i];
            assert(notebook.notes[k].list matches Some(list) ==> has_list(notebook.lists, list));
            assert(notebook.notes[k].list != Some(id));
        }
    } else {
        assert(note_ids(after.notes) =~= note_ids(notebook.notes));
        assert forall|i: int| 0 <= i < after.notes.len() implies ((
        #[trigger] after.notes[i]).list matches Some(list) ==> has_list(after.lists, list)) by {
            assert(notebook.notes[i].list matches Some(list) ==> has_list(notebook.lists, list));
        }
        assert forall|i: int| 0 <= i < after.files.len() implies has_note(
            after.notes,
            (#[trigger] after.files[i]).note,
        ) by {
            assert(after.files[i] == notebook.files[i]);
            let k = choose|k: int|
                0 <= k < notebook.notes.len() && (#[trigger] notebook.notes[k]).id
                    == notebook.files[i].note;
            assert(after.notes[k].id == notebook.notes[k].id);
        }
    }
}

proof fn lemma_gone(lists: Seq<ListView>, id: i64)
    ensures
        !has_list(lists_without(lists, id), id),
    decreases lists.len(),
{
    reveal(Seq::filter);
    let kept = lists_without(lists, id);
    if lists.len() > 0 {
        let before = lists_without(lists.drop_last(), id);
        lemma_gone(lists.drop_last(), id);
        if has_list(kept, id) {
            let k = choose|k: int| 0 <= k < kept.len() && (#[trigger] kept[k]).id == id;
            if k < before.len() {
                assert(before[k] == kept[k]);
            }
        }
    }
}

/// Renaming a list keeps the notebook in order.
pub proof fn lemma_renaming_keeps_order(notebook: NotebookView, id: i64, name: Seq<char>)
    requires
        in_order(notebook),
    ensures
        in_order(NotebookView { lists: lists_renamed(notebook.lists, id, name), ..notebook }),
{
    let after = lists_renamed(notebook.lists, id, name);
    assert(list_ids(after) =~= list_ids(notebook.lists));
    assert forall|list: i64| has_list(notebook.lists, list) implies #[trigger] has_list(
        after,
        list,
    ) by {
        let k = choose|k: int|
            0 <= k < notebook.lists.len() && (#[trigger] notebook.lists[k]).id == list;
        assert(after[k].id == list);
    }
}

} // verus!
