//! What an agent gets for its requests: the lists and notes that it asks for, as far as the policy
//! lets it, and changes of what it names and of nothing else.

use vstd::prelude::*;
use vstd::string::*;

use crate::agent::{
    completed_too, count_of, files_told, first_of, is_wanted, lemma_newest_first, lemma_placed_same,
    lemma_wanted_only, list_created, list_told, lists_told, looked_at, mentions, newer,
    newest_first, newest_wanted, part_at, permitted, phrase, resolved, search_scope, search_told,
    summaries, todo_added, todo_set, todo_updated, AddTodoRequest, CreateListRequest, FoundView,
    InfoView, ListItemsRequest, RefView, SearchRequest, SetDoneRequest, SummaryView,
    UpdateTodoRequest,
};
use crate::companion::{limit_of, PolicyView, WriteMode};
use crate::note_laws::{
    changed_as, lemma_change_names_its_note, lemma_found_by_identifier, lemma_found_by_name,
    same_name,
};
use crate::notebook::{
    has_list, has_note, list_called, list_ids, list_of, note_ids, note_of, ChangeView, ListView,
    NoteFileView, NoteView, NotebookView,
};
use crate::plain::opt_view;
use crate::text::{ascii_lower, ascii_lowercase, trimmed};

verus! {

/// An agent may see and write what is on a list: in the inbox where the policy opens it, and on a
/// list that the policy names, or on every one where it names none.
pub open spec fn may_use(policy: PolicyView, list: Option<i64>) -> bool {
    match list {
        None => policy.allow_inbox,
        Some(id) => policy.allowed.len() == 0 || exists|i: int|
            0 <= i < policy.allowed.len() && #[trigger] policy.allowed[i] == id,
    }
}

/// A list of the notebook, by its identifier and its name; the inbox has none.
pub open spec fn names_list(notebook: NotebookView, list: RefView) -> bool {
    match list.id {
        None => list.name == "Inbox"@,
        Some(id) => exists|i: int|
            0 <= i < notebook.lists.len() && (#[trigger] notebook.lists[i]).id == id
                && notebook.lists[i].name == list.name,
    }
}

/// The list that is called so, whatever the case of the letters and whatever blanks are around.
pub open spec fn goes_by(notebook: NotebookView, list: Option<i64>, name: Seq<char>) -> bool {
    match list {
        None => same_name(trimmed(name), "inbox"@),
        Some(id) => exists|i: int|
            0 <= i < notebook.lists.len() && (#[trigger] notebook.lists[i]).id == id && same_name(
                notebook.lists[i].name,
                trimmed(name),
            ),
    }
}

proof fn lemma_inbox_is_small()
    ensures
        ascii_lowercase("inbox"@) == "inbox"@,
{
    reveal_strlit("inbox");
    assert(ascii_lowercase("inbox"@) =~= "inbox"@);
}

/// A request that names a list is about that list: the one with the identifier, or one that is
/// called so. The list is there, and the agent may use it. A request that names none is about the
/// list that the policy sets, else about the one that is open.
pub proof fn lemma_resolved_list(
    policy: PolicyView,
    notebook: NotebookView,
    list_id: Option<i64>,
    list_name: Option<Seq<char>>,
    use_default: bool,
)
    ensures
        resolved(policy, notebook, list_id, list_name, use_default) matches Ok(list) ==> {
            &&& may_use(policy, list.id)
            &&& names_list(notebook, list)
            &&& list_id matches Some(id) ==> list.id == Some(id) && list_name is None
            &&& list_name matches Some(name) ==> goes_by(notebook, list.id, name) && list_id is None
            &&& list_id is None && list_name is None ==> use_default && match policy.default_list {
                Some(name) => goes_by(notebook, list.id, name),
                None => list.id == notebook.active,
            }
        },
        list_id matches Some(id) && list_name is None && id > 0 && has_list(notebook.lists, id)
            && may_use(policy, Some(id)) ==> resolved(
            policy,
            notebook,
            list_id,
            list_name,
            use_default,
        ) is Ok,
        list_id is None && list_name is None && use_default && policy.default_list is None
            && notebook.active is None && policy.allow_inbox ==> resolved(
            policy,
            notebook,
            list_id,
            list_name,
            use_default,
        ) is Ok,
{
    lemma_inbox_is_small();
    if let Some(id) = list_id {
        lemma_found_by_identifier(notebook, id);
        if policy.allowed.contains(id) {
            let k = policy.allowed.index_of(id);
            assert(policy.allowed[k] == id);
        }
    }
    if let Some(id) = notebook.active {
        lemma_found_by_identifier(notebook, id);
    }
    if let Some(name) = list_name {
        lemma_found_by_name(notebook.lists, trimmed(name));
    }
    if let Some(name) = policy.default_list {
        lemma_found_by_name(notebook.lists, trimmed(name));
    }
    if let Ok(list) = resolved(policy, notebook, list_id, list_name, use_default) {
        if let Some(id) = list.id {
            if policy.allowed.len() > 0 {
                let k = policy.allowed.index_of(id);
                assert(policy.allowed[k] == id);
            }
        }
    }
}

/// A phrase stands in a text, whatever the case of its letters.
pub open spec fn holds_phrase(text: Seq<char>, phrase: Seq<char>) -> bool {
    exists|at: int| #[trigger] phrase_at(text, phrase, at)
}

/// A phrase stands in a text at a place, whatever the case of its letters.
pub open spec fn phrase_at(text: Seq<char>, phrase: Seq<char>, at: int) -> bool {
    0 <= at <= text.len() - phrase.len() && forall|k: int|
        0 <= k < phrase.len() ==> ascii_lower(text[at + k]) == ascii_lower(#[trigger] phrase[k])
}

/// A text mentions a phrase exactly where the phrase stands in it.
pub proof fn lemma_mentions(text: Seq<char>, part: Seq<char>)
    ensures
        mentions(text, part) <==> holds_phrase(text, part),
{
    let small = ascii_lowercase(text);
    let small_part = ascii_lowercase(part);
    if mentions(text, part) {
        let at = choose|at: int| #[trigger] part_at(small, small_part, at);
        let here = small.skip(at).take(small_part.len() as int);
        assert forall|k: int| 0 <= k < part.len() implies ascii_lower(text[at + k]) == ascii_lower(
            #[trigger] part[k],
        ) by {
            assert(here[k] == small_part[k]);
        }
        assert(phrase_at(text, part, at));
    }
    if holds_phrase(text, part) {
        let at = choose|at: int| #[trigger] phrase_at(text, part, at);
        let here = small.skip(at).take(small_part.len() as int);
        assert forall|k: int| 0 <= k < part.len() implies here[k] == small_part[k] by {
            assert(ascii_lower(text[at + k]) == ascii_lower(part[k]));
        }
        assert(here =~= small_part);
        assert(part_at(small, small_part, at));
    }
}

proof fn lemma_wanted_few(
    notes: Seq<NoteView>,
    list: Option<Option<i64>>,
    part: Seq<char>,
    completed: bool,
)
    ensures
        newest_wanted(notes, list, part, completed).len() <= notes.len(),
    decreases notes.len(),
{
    if notes.len() > 0 {
        lemma_wanted_few(notes.drop_last(), list, part, completed);
        lemma_placed_same(
            newest_wanted(notes.drop_last(), list, part, completed),
            notes.last(),
        );
    }
}

/// A note does not come behind another by the time at which it was changed, nor, where that is one, by
/// its identifier.
pub open spec fn not_older(a: NoteView, b: NoteView) -> bool {
    a.updated_at > b.updated_at || (a.updated_at == b.updated_at && a.id >= b.id)
}

/// The note that was changed last comes first.
pub open spec fn latest_first(notes: Seq<NoteView>) -> bool {
    forall|i: int, j: int| 0 <= i < j < notes.len() ==> not_older(notes[i], notes[j])
}

/// The notes that are found, without their lists.
pub open spec fn found_notes(items: Seq<FoundView>) -> Seq<NoteView> {
    items.map_values(|item: FoundView| item.note)
}

/// Leaving notes out leaves the rest in order, and every note stays that may be told of.
proof fn lemma_permitted(policy: PolicyView, notebook: NotebookView, notes: Seq<NoteView>)
    ensures
        permitted(policy, notebook, notes).len() <= notes.len(),
        newest_first(notes) ==> newest_first(found_notes(permitted(policy, notebook, notes))),
        forall|i: int|
            0 <= i < notes.len() && may_use(policy, (#[trigger] notes[i]).list) ==> found_notes(
                permitted(policy, notebook, notes),
            ).contains(notes[i]),
        (forall|i: int| 0 <= i < notes.len() ==> may_use(policy, (#[trigger] notes[i]).list))
            ==> found_notes(permitted(policy, notebook, notes)) == notes,
        forall|i: int|
            0 <= i < permitted(policy, notebook, notes).len() ==> {
                let item = #[trigger] permitted(policy, notebook, notes)[i];
                &&& may_use(policy, item.note.list)
                &&& notes.contains(item.note)
                &&& item.list.id == item.note.list
                &&& item.note.list is None || has_list(notebook.lists, item.note.list->0)
                    ==> names_list(notebook, item.list)
            },
    decreases notes.len(),
{
    let all = permitted(policy, notebook, notes);
    if notes.len() > 0 {
        let shorter = notes.drop_last();
        let last = notes.last();
        let n = notes.len() - 1;
        let front = permitted(policy, notebook, shorter);
        lemma_permitted(policy, notebook, shorter);
        assert(notes[n] == last);
        if let Some(id) = last.list {
            lemma_found_by_identifier(notebook, id);
            if policy.allowed.contains(id) {
                assert(policy.allowed[policy.allowed.index_of(id)] == id);
            }
        }
        let told = found_notes(all);
        let before = found_notes(front);
        let kept = all.len() > front.len();
        if kept {
            assert(told =~= before.push(last));
        }
        if newest_first(notes) {
            assert(newest_first(shorter)) by {
                assert forall|i: int, j: int| 0 <= i < j < shorter.len() implies !newer(
                    shorter[j],
                    shorter[i],
                ) by {
                    assert(!newer(notes[j], notes[i]));
                }
            }
            assert forall|i: int, j: int| 0 <= i < j < told.len() implies !newer(
                told[j],
                told[i],
            ) by {
                if j < before.len() {
                    assert(!newer(before[j], before[i]));
                } else {
                    assert(told[j] == last);
                    assert(shorter.contains(front[i].note));
                    let k = shorter.index_of(front[i].note);
                    assert(!newer(notes[n], notes[k]));
                }
            }
        }
        assert forall|i: int|
            0 <= i < notes.len() && may_use(
                policy,
                (#[trigger] notes[i]).list,
            ) implies told.contains(notes[i]) by {
            if i < n {
                assert(shorter[i] == notes[i]);
                assert(before.contains(notes[i]));
                assert(told[before.index_of(notes[i])] == notes[i]);
            } else {
                assert(kept);
                assert(told[told.len() - 1] == last);
            }
        }
        if forall|i: int| 0 <= i < notes.len() ==> may_use(policy, (#[trigger] notes[i]).list) {
            assert forall|i: int| 0 <= i < shorter.len() implies may_use(
                policy,
                (#[trigger] shorter[i]).list,
            ) by {
                assert(shorter[i] == notes[i]);
            }
            assert(may_use(policy, notes[n].list));
            assert(kept);
            assert(told =~= notes);
        }
        assert forall|i: int| 0 <= i < all.len() implies {
            let item = #[trigger] all[i];
            &&& may_use(policy, item.note.list)
            &&& notes.contains(item.note)
            &&& item.list.id == item.note.list
            &&& item.note.list is None || has_list(notebook.lists, item.note.list->0)
                ==> names_list(notebook, item.list)
        } by {
            if i < front.len() {
                assert(all[i] == front[i]);
                assert(notes[shorter.index_of(front[i].note)] == front[i].note);
            } else {
                if let Some(id) = last.list {
                    if has_list(notebook.lists, id) {
                        let row = list_of(notebook.lists, id)->0;
                        let k = notebook.lists.index_of(row);
                        assert(notebook.lists[k].id == id);
                    }
                }
            }
        }
    } else {
        assert(found_notes(all) =~= notes);
    }
}

/// A note that a search is after: on the list that the search names, if it names one, with the
/// phrase in it, and open unless done notes are asked for and the policy tells of them.
pub open spec fn searched_for(
    policy: PolicyView,
    notebook: NotebookView,
    request: SearchRequest,
    note: NoteView,
) -> bool {
    &&& notebook.notes.contains(note)
    &&& may_use(policy, note.list)
    &&& holds_phrase(note.content, trimmed(request.query@))
    &&& note.done ==> policy.include_completed && request.include_completed == Some(true)
    &&& request.list_id matches Some(id) ==> note.list == Some(id)
    &&& request.list_name matches Some(name) ==> goes_by(notebook, note.list, name@)
}

/// No two lists go by one name.
pub open spec fn one_goes_by(notebook: NotebookView, name: Seq<char>) -> bool {
    forall|a: Option<i64>, b: Option<i64>|
        #[trigger] goes_by(notebook, a, name) && #[trigger] goes_by(notebook, b, name) ==> a == b
}

/// A search finds only notes that it is after, each with its list; the note that was changed last
/// comes first, and there are no more than asked for. Where the search names a list, or the policy
/// leaves nothing out, or the notebook is small, every note that it is after is found, unless enough
/// newer ones are.
pub proof fn lemma_search_finds(
    policy: PolicyView,
    notebook: NotebookView,
    request: SearchRequest,
)
    ensures
        search_told(policy, notebook, request) matches Ok(items) ==> {
            let limit = limit_of(policy, request.limit);
            &&& items.len() <= limit
            &&& latest_first(found_notes(items))
            &&& forall|i: int|
                0 <= i < items.len() ==> {
                    let item = #[trigger] items[i];
                    &&& searched_for(policy, notebook, request, item.note)
                    &&& item.list.id == item.note.list
                    &&& item.note.list is None || has_list(notebook.lists, item.note.list->0)
                        ==> names_list(notebook, item.list)
                }
            &&& forall|note: NoteView|
                (request.list_id is Some || (request.list_name is Some && one_goes_by(
                    notebook,
                    request.list_name->0@,
                )) || (request.list_name is None && policy.allow_inbox
                    && policy.allowed.len() == 0) || (request.list_name is None
                    && notebook.notes.len() <= looked_at(limit))) && #[trigger] searched_for(
                    policy,
                    notebook,
                    request,
                    note,
                ) ==> found_notes(items).contains(note) || (items.len() == limit && forall|
                    i: int,
                |
                    0 <= i < items.len() ==> not_older((#[trigger] items[i]).note, note))
        },
{
    if let Ok(items) = search_told(policy, notebook, request) {
        let part = trimmed(request.query@);
        let completed = completed_too(policy, request.include_completed);
        let limit = limit_of(policy, request.limit);
        let scope = search_scope(policy, notebook, request)->Ok_0;
        let wanted = newest_wanted(notebook.notes, scope, part, completed);
        let seen = first_of(wanted, looked_at(limit));
        let all = permitted(policy, notebook, seen);
        lemma_resolved_list(
            policy,
            notebook,
            request.list_id,
            opt_view(request.list_name),
            false,
        );
        lemma_wanted_only(notebook.notes, scope, part, completed);
        lemma_wanted_few(notebook.notes, scope, part, completed);
        lemma_newest_first(notebook.notes, scope, part, completed);
        assert(newest_first(seen)) by {
            assert forall|i: int, j: int| 0 <= i < j < seen.len() implies !newer(
                seen[j],
                seen[i],
            ) by {
                assert(seen[i] == wanted[i] && seen[j] == wanted[j]);
            }
        }
        lemma_permitted(policy, notebook, seen);
        let told = found_notes(all);
        assert(found_notes(items) =~= told.take(items.len() as int));
        assert(latest_first(found_notes(items))) by {
            assert forall|i: int, j: int| 0 <= i < j < items.len() implies not_older(
                found_notes(items)[i],
                found_notes(items)[j],
            ) by {
                assert(!newer(told[j], told[i]));
            }
        }
        assert forall|i: int| 0 <= i < items.len() implies {
            let item = #[trigger] items[i];
            &&& searched_for(policy, notebook, request, item.note)
            &&& item.list.id == item.note.list
            &&& item.note.list is None || has_list(notebook.lists, item.note.list->0)
                ==> names_list(notebook, item.list)
        } by {
            assert(items[i] == all[i]);
            let k = seen.index_of(all[i].note);
            assert(seen[k] == wanted[k]);
            assert(is_wanted(wanted[k], scope, part, completed));
            lemma_mentions(wanted[k].content, part);
        }
        assert forall|note: NoteView|
            (request.list_id is Some || (request.list_name is Some && one_goes_by(
                    notebook,
                    request.list_name->0@,
                )) || (request.list_name is None && policy.allow_inbox
                && policy.allowed.len() == 0) || (request.list_name is None
                && notebook.notes.len() <= looked_at(limit))) && #[trigger] searched_for(
                policy,
                notebook,
                request,
                note,
            ) implies found_notes(items).contains(note) || (items.len() == limit && forall|i: int|
            0 <= i < items.len() ==> not_older((#[trigger] items[i]).note, note)) by {
            lemma_mentions(note.content, part);
            let m = notebook.notes.index_of(note);
            assert(is_wanted(notebook.notes[m], scope, part, completed));
            assert(wanted.contains(note));
            let k = wanted.index_of(note);
            if request.list_id is Some || request.list_name is Some || (policy.allow_inbox && policy.allowed.len() == 0) {
                assert forall|i: int| 0 <= i < seen.len() implies may_use(
                    policy,
                    (#[trigger] seen[i]).list,
                ) by {
                    assert(is_wanted(wanted[i], scope, part, completed));
                }
                assert(told == seen);
                assert(all.len() == seen.len());
                if k < items.len() {
                    assert(found_notes(items)[k] == note);
                } else {
                    assert(items.len() == limit);
                    assert forall|i: int| 0 <= i < items.len() implies not_older(
                        (#[trigger] items[i]).note,
                        note,
                    ) by {
                        assert(items[i].note == found_notes(items)[i]);
                        assert(told[i] == wanted[i]);
                        assert(!newer(wanted[k], wanted[i]));
                    }
                }
            } else {
                assert(seen =~= wanted);
                assert(seen[k] == note);
                assert(told.contains(note));
                let p = told.index_of(note);
                if p < items.len() {
                    assert(found_notes(items)[p] == note);
                } else {
                    assert(items.len() == limit);
                    assert forall|i: int| 0 <= i < items.len() implies not_older(
                        (#[trigger] items[i]).note,
                        note,
                    ) by {
                        assert(items[i].note == told[i]);
                        assert(!newer(told[p], told[i]));
                    }
                }
            }
        }
    }
}

/// The files that are attached to a note, as they are told of: each by its identifier, its name, its
/// type and its size.
pub open spec fn files_of(files: Seq<NoteFileView>, note: i64) -> Seq<InfoView> {
    files.filter(|file: NoteFileView| file.note == note).map_values(
        |file: NoteFileView|
            InfoView {
                id: file.id,
                name: file.name,
                media_type: file.media_type,
                size: file.size,
            },
    )
}

/// What is told of the files of a note is what the notebook has of them, one for each file.
pub proof fn lemma_files_told(files: Seq<NoteFileView>, note: i64)
    ensures
        files_told(files, note) == files_of(files, note),
    decreases files.len(),
{
    reveal(Seq::filter);
    if files.len() > 0 {
        lemma_files_told(files.drop_last(), note);
        let kept = files.drop_last().filter(|file: NoteFileView| file.note == note);
        let last = files.last();
        if last.note == note {
            assert(files_of(files, note) =~= files_of(files.drop_last(), note).push(
                InfoView {
                    id: last.id,
                    name: last.name,
                    media_type: last.media_type,
                    size: last.size,
                },
            ));
        } else {
            assert(files_of(files, note) =~= files_of(files.drop_last(), note));
        }
    } else {
        assert(files_of(files, note) =~= Seq::empty());
    }
}

/// Reading a list tells of the list that the request names, and of the notes on it: of those alone,
/// with the phrase of the request where it has one, open ones alone unless done ones are asked for and
/// the policy tells of them, the note that was changed last first, with what is known of their files
/// where the policy says so. Every such note is told of, unless enough newer ones are.
pub proof fn lemma_reading_tells(
    policy: PolicyView,
    notebook: NotebookView,
    request: ListItemsRequest,
)
    ensures
        list_told(policy, notebook, request) matches Ok((list, items)) ==> {
            let limit = limit_of(policy, request.limit);
            let told = items.map_values(|item: crate::agent::ReadView| item.note);
            let completed = policy.include_completed && request.include_completed == Some(true);
            &&& policy.read_enabled
            &&& may_use(policy, list.id)
            &&& names_list(notebook, list)
            &&& request.list_id matches Some(id) ==> list.id == Some(id)
            &&& request.list_name matches Some(name) ==> goes_by(notebook, list.id, name@)
            &&& items.len() <= limit
            &&& latest_first(told)
            &&& forall|i: int|
                0 <= i < items.len() ==> {
                    let note = (#[trigger] items[i]).note;
                    &&& notebook.notes.contains(note)
                    &&& note.list == list.id
                    &&& note.done ==> completed
                    &&& request.query matches Some(part) ==> part@.len() == 0 || holds_phrase(
                        note.content,
                        part@,
                    )
                    &&& items[i].files == if policy.include_attachment_metadata {
                        files_of(notebook.files, note.id)
                    } else {
                        Seq::empty()
                    }
                }
            &&& forall|note: NoteView| #[trigger]
                notebook.notes.contains(note) && note.list == list.id && (note.done ==> completed)
                    && (request.query matches Some(part) ==> part@.len() == 0 || holds_phrase(
                    note.content,
                    part@,
                )) ==> told.contains(note) || (items.len() == limit && forall|i: int|
                    0 <= i < items.len() ==> not_older((#[trigger] items[i]).note, note))
        },
{
    lemma_resolved_list(policy, notebook, request.list_id, opt_view(request.list_name), true);
    if let Ok((list, items)) = list_told(policy, notebook, request) {
        let limit = limit_of(policy, request.limit);
        let told = items.map_values(|item: crate::agent::ReadView| item.note);
        let part = phrase(opt_view(request.query));
        let completed = completed_too(policy, request.include_completed);
        let wanted = newest_wanted(notebook.notes, Some(list.id), part, completed);
        let seen = first_of(wanted, limit);
        lemma_wanted_only(notebook.notes, Some(list.id), part, completed);
        lemma_newest_first(notebook.notes, Some(list.id), part, completed);
        assert(told =~= seen);
        assert forall|i: int| 0 <= i < items.len() implies {
            let note = (#[trigger] items[i]).note;
            &&& notebook.notes.contains(note)
            &&& note.list == list.id
            &&& note.done ==> completed
            &&& request.query matches Some(phrase) ==> phrase@.len() == 0 || holds_phrase(
                note.content,
                phrase@,
            )
            &&& items[i].files == if policy.include_attachment_metadata {
                files_of(notebook.files, note.id)
            } else {
                Seq::empty()
            }
        } by {
            lemma_files_told(notebook.files, wanted[i].id);
            assert(items[i].note == wanted[i]);
            assert(is_wanted(wanted[i], Some(list.id), part, completed));
            lemma_mentions(wanted[i].content, part);
        }
        assert(latest_first(told)) by {
            assert forall|i: int, j: int| 0 <= i < j < told.len() implies not_older(
                told[i],
                told[j],
            ) by {
                assert(!newer(wanted[j], wanted[i]));
            }
        }
        assert forall|note: NoteView| #[trigger]
            notebook.notes.contains(note) && note.list == list.id && (note.done ==> completed) && (
            request.query matches Some(phrase) ==> phrase@.len() == 0 || holds_phrase(
                note.content,
                phrase@,
            )) implies told.contains(note) || (items.len() == limit && forall|i: int|
            0 <= i < items.len() ==> not_older((#[trigger] items[i]).note, note)) by {
            lemma_mentions(note.content, part);
            let m = notebook.notes.index_of(note);
            assert(is_wanted(notebook.notes[m], Some(list.id), part, completed));
            assert(wanted.contains(note));
            let k = wanted.index_of(note);
            if k < items.len() {
                assert(told[k] == note);
            } else {
                assert forall|i: int| 0 <= i < items.len() implies not_older(
                    (#[trigger] items[i]).note,
                    note,
                ) by {
                    assert(told[i] == wanted[i]);
                    assert(!newer(wanted[k], wanted[i]));
                }
            }
        }
    }
}

/// Adding a todo adds one open note with the text of the request, without the blanks around it, on
/// the list that the request names, under an identifier that no note had. Nothing else changes.
pub proof fn lemma_added_todo(
    policy: PolicyView,
    notebook: NotebookView,
    request: AddTodoRequest,
    now: i64,
)
    ensures
        todo_added(policy, notebook, request, now) matches Ok((after, id, list)) ==> {
            &&& policy.write_mode != WriteMode::ReadOnly
            &&& may_use(policy, list.id)
            &&& names_list(notebook, list)
            &&& request.list_id matches Some(given) ==> list.id == Some(given)
            &&& request.list_name matches Some(name) ==> goes_by(notebook, list.id, name@)
            &&& !has_note(notebook.notes, id)
            &&& after.notes.len() == notebook.notes.len() + 1
            &&& after.notes.drop_last() == notebook.notes
            &&& after.notes.last().id == id
            &&& after.notes.last().list == list.id
            &&& after.notes.last().content == trimmed(request.content@)
            &&& !after.notes.last().done
            &&& after.notes.last().created_at == now
            &&& after.notes.last().updated_at == now
            &&& after.lists == notebook.lists && after.files == notebook.files && after.active
                == notebook.active
        },
{
    lemma_resolved_list(policy, notebook, request.list_id, opt_view(request.list_name), true);
    let ids = note_ids(notebook.notes);
    crate::entries::lemma_largest(ids);
    if let Ok((after, id, list)) = todo_added(policy, notebook, request, now) {
        assert(after.notes.drop_last() =~= notebook.notes);
        if has_note(notebook.notes, id) {
            let k = choose|k: int|
                0 <= k < notebook.notes.len() && (#[trigger] notebook.notes[k]).id == id;
            assert(ids[k] <= crate::notebook::largest(ids));
        }
    }
}

/// Changing a todo gives the named note the text of the request, without the blanks around it, and
/// puts it on the list that the request names, or leaves it where it is. Whether it is done, when it
/// was made and every other note stay as they are. The note must be one that the agent may use.
pub proof fn lemma_updated_todo(
    policy: PolicyView,
    notebook: NotebookView,
    request: UpdateTodoRequest,
    now: i64,
)
    ensures
        todo_updated(policy, notebook, request, now) matches Ok((after, list)) ==> {
            &&& policy.write_mode != WriteMode::ReadOnly
            &&& names_list(notebook, list)
            &&& request.list_id matches Some(given) ==> list.id == Some(given)
            &&& request.list_name matches Some(name) ==> goes_by(notebook, list.id, name@)
            &&& request.list_id is Some || request.list_name is Some ==> may_use(policy, list.id)
            &&& exists|k: int|
                0 <= k < notebook.notes.len() && (#[trigger] notebook.notes[k]).id
                    == request.item_id && may_use(policy, notebook.notes[k].list) && (
                request.list_id is None && request.list_name is None ==> list.id
                    == notebook.notes[k].list)
            &&& after.notes.len() == notebook.notes.len()
            &&& forall|i: int|
                0 <= i < notebook.notes.len() ==> if (#[trigger] notebook.notes[i]).id
                    == request.item_id {
                    changed_as(
                        notebook.notes[i],
                        after.notes[i],
                        ChangeView::Moved(trimmed(request.content@), list.id),
                        now,
                    )
                } else {
                    after.notes[i] == notebook.notes[i]
                }
            &&& after.lists == notebook.lists && after.files == notebook.files && after.active
                == notebook.active
        },
{
    lemma_resolved_list(policy, notebook, request.list_id, opt_view(request.list_name), false);
    lemma_found_by_identifier(notebook, request.item_id);
    if let Ok((after, list)) = todo_updated(policy, notebook, request, now) {
        lemma_change_names_its_note(
            notebook.notes,
            request.item_id,
            ChangeView::Moved(trimmed(request.content@), list.id),
            now,
        );
        let note = note_of(notebook.notes, request.item_id)->0;
        let k = notebook.notes.index_of(note);
        assert(notebook.notes[k].id == request.item_id);
        if let Some(id) = note.list {
            lemma_found_by_identifier(notebook, id);
            if policy.allowed.contains(id) {
                assert(policy.allowed[policy.allowed.index_of(id)] == id);
            }
            if request.list_id is None && request.list_name is None {
                let row = list_of(notebook.lists, id)->0;
                assert(notebook.lists[notebook.lists.index_of(row)].id == id);
            }
        }
        assert(may_use(policy, notebook.notes[k].list));
    }
}

/// Ticking a todo off, or opening it again, does so to the named note, and leaves its text, its list
/// and every other note as they are. The note must be one that the agent may use.
pub proof fn lemma_set_todo(
    policy: PolicyView,
    notebook: NotebookView,
    request: SetDoneRequest,
    now: i64,
)
    ensures
        todo_set(policy, notebook, request, now) matches Ok(after) ==> {
            &&& policy.write_mode != WriteMode::ReadOnly
            &&& exists|k: int|
                0 <= k < notebook.notes.len() && (#[trigger] notebook.notes[k]).id
                    == request.item_id && may_use(policy, notebook.notes[k].list)
            &&& after.notes.len() == notebook.notes.len()
            &&& forall|i: int|
                0 <= i < notebook.notes.len() ==> if (#[trigger] notebook.notes[i]).id
                    == request.item_id {
                    changed_as(
                        notebook.notes[i],
                        after.notes[i],
                        ChangeView::Done(request.done),
                        now,
                    )
                } else {
                    after.notes[i] == notebook.notes[i]
                }
            &&& after.lists == notebook.lists && after.files == notebook.files && after.active
                == notebook.active
        },
        policy.write_mode != WriteMode::ReadOnly && request.item_id > 0 && policy.allow_inbox
            && policy.allowed.len() == 0 && has_note(notebook.notes, request.item_id) ==> todo_set(
            policy,
            notebook,
            request,
            now,
        ) is Ok,
{
    lemma_found_by_identifier(notebook, request.item_id);
    if let Ok(after) = todo_set(policy, notebook, request, now) {
        lemma_change_names_its_note(
            notebook.notes,
            request.item_id,
            ChangeView::Done(request.done),
            now,
        );
        let note = note_of(notebook.notes, request.item_id)->0;
        let k = notebook.notes.index_of(note);
        if let Some(id) = note.list {
            if policy.allowed.contains(id) {
                assert(policy.allowed[policy.allowed.index_of(id)] == id);
            }
        }
        assert(notebook.notes[k].id == request.item_id && may_use(policy, notebook.notes[k].list));
    }
}

/// Making a list makes one with the name of the request, without the blanks around it, under an
/// identifier that no list had, where no list is called so yet. The list that is open stays open, and
/// nothing else changes. Only a policy that lets lists be managed, and names no lists, permits it.
pub proof fn lemma_created_list(
    policy: PolicyView,
    notebook: NotebookView,
    request: CreateListRequest,
    now: i64,
)
    ensures
        list_created(policy, notebook, request, now) matches Ok((after, id)) ==> {
            &&& policy.write_mode == WriteMode::ManageLists
            &&& policy.allowed.len() == 0
            &&& !has_list(notebook.lists, id)
            &&& forall|i: int|
                0 <= i < notebook.lists.len() ==> !same_name(
                    (#[trigger] notebook.lists[i]).name,
                    trimmed(request.name@),
                )
            &&& after.lists.len() == notebook.lists.len() + 1
            &&& after.lists.drop_last() == notebook.lists
            &&& after.lists.last().id == id
            &&& after.lists.last().name == trimmed(request.name@)
            &&& after.lists.last().created_at == now
            &&& after.notes == notebook.notes && after.files == notebook.files && after.active
                == notebook.active
        },
{
    lemma_found_by_name(notebook.lists, trimmed(request.name@));
    let ids = list_ids(notebook.lists);
    crate::entries::lemma_largest(ids);
    if let Ok((after, id)) = list_created(policy, notebook, request, now) {
        assert(after.lists.drop_last() =~= notebook.lists);
        if has_list(notebook.lists, id) {
            let k = choose|k: int|
                0 <= k < notebook.lists.len() && (#[trigger] notebook.lists[k]).id == id;
            assert(ids[k] <= crate::notebook::largest(ids));
        }
    }
}

/// The notes of a list that are done, or are not.
pub open spec fn notes_on(notes: Seq<NoteView>, list: Option<i64>, done: bool) -> Seq<NoteView> {
    notes.filter(|note: NoteView| note.list == list && note.done == done)
}

/// The count of notes is that of the notes on the list.
pub proof fn lemma_counted(notes: Seq<NoteView>, list: Option<i64>, done: bool)
    ensures
        count_of(notes, list, done) == notes_on(notes, list, done).len(),
    decreases notes.len(),
{
    reveal(Seq::filter);
    if notes.len() > 0 {
        lemma_counted(notes.drop_last(), list, done);
    }
}

/// What is told of a list is how many of its notes are open, and how many are done where the policy
/// tells of those.
pub open spec fn summary_fits(
    policy: PolicyView,
    notebook: NotebookView,
    summary: SummaryView,
) -> bool {
    &&& may_use(policy, summary.list.id)
    &&& summary.open == notes_on(notebook.notes, summary.list.id, false).len()
    &&& summary.completed == if policy.include_completed {
        Some(notes_on(notebook.notes, summary.list.id, true).len())
    } else {
        None
    }
}

/// One of the lists goes by the identifier and the name.
spec fn is_among(lists: Seq<ListView>, list: RefView) -> bool {
    exists|i: int|
        0 <= i < lists.len() && list.id == Some((#[trigger] lists[i]).id) && list.name
            == lists[i].name
}

/// The list is told of.
pub open spec fn told_of(summaries: Seq<SummaryView>, list: RefView) -> bool {
    exists|k: int| 0 <= k < summaries.len() && (#[trigger] summaries[k]).list == list
}

proof fn lemma_summaries(policy: PolicyView, notebook: NotebookView, lists: Seq<ListView>)
    ensures
        forall|i: int|
            0 <= i < lists.len() && may_use(policy, Some((#[trigger] lists[i]).id)) ==> told_of(
                summaries(policy, notebook, lists),
                RefView { id: Some(lists[i].id), name: lists[i].name },
            ),
        forall|k: int|
            0 <= k < summaries(policy, notebook, lists).len() ==> summary_fits(
                policy,
                notebook,
                #[trigger] summaries(policy, notebook, lists)[k],
            ) && is_among(lists, summaries(policy, notebook, lists)[k].list),
    decreases lists.len(),
{
    let told = summaries(policy, notebook, lists);
    if lists.len() > 0 {
        let shorter = lists.drop_last();
        let n = lists.len() - 1;
        let last = lists.last();
        let front = summaries(policy, notebook, shorter);
        lemma_summaries(policy, notebook, shorter);
        assert(lists[n] == last);
        lemma_counted(notebook.notes, Some(last.id), false);
        lemma_counted(notebook.notes, Some(last.id), true);
        if policy.allowed.contains(last.id) {
            assert(policy.allowed[policy.allowed.index_of(last.id)] == last.id);
        }
        assert forall|i: int|
            0 <= i < lists.len() && may_use(
                policy,
                Some((#[trigger] lists[i]).id),
            ) implies told_of(told, RefView { id: Some(lists[i].id), name: lists[i].name }) by {
            if i < n {
                assert(shorter[i] == lists[i]);
                let list = RefView { id: Some(lists[i].id), name: lists[i].name };
                let k = choose|k: int|
                    0 <= k < front.len() && (#[trigger] front[k]).list == list;
                assert(told[k] == front[k]);
            } else {
                assert(told[told.len() - 1].list == (RefView {
                    id: Some(lists[i].id),
                    name: lists[i].name,
                }));
            }
        }
        assert forall|k: int| 0 <= k < told.len() implies summary_fits(
            policy,
            notebook,
            #[trigger] told[k],
        ) && is_among(lists, told[k].list) by {
            if k < front.len() {
                assert(told[k] == front[k]);
                let i = choose|i: int|
                    0 <= i < shorter.len() && front[k].list.id == Some((#[trigger] shorter[i]).id)
                        && front[k].list.name == shorter[i].name;
                assert(lists[i] == shorter[i]);
            } else {
                assert(told[k].list.id == Some(lists[n].id));
            }
        }
    }
}

/// An agent that asks for the lists is told of the inbox and of every list that it may use, each by
/// its name and with how many of its notes are open, and of no other.
pub proof fn lemma_lists_told(policy: PolicyView, notebook: NotebookView)
    ensures
        forall|k: int|
            0 <= k < lists_told(policy, notebook).len() ==> summary_fits(
                policy,
                notebook,
                #[trigger] lists_told(policy, notebook)[k],
            ) && names_list(notebook, lists_told(policy, notebook)[k].list),
        forall|i: int|
            0 <= i < notebook.lists.len() && may_use(
                policy,
                Some((#[trigger] notebook.lists[i]).id),
            ) ==> told_of(
                lists_told(policy, notebook),
                RefView { id: Some(notebook.lists[i].id), name: notebook.lists[i].name },
            ),
        may_use(policy, None) ==> told_of(
            lists_told(policy, notebook),
            RefView { id: None, name: "Inbox"@ },
        ),
{
    let told = lists_told(policy, notebook);
    let rest = summaries(policy, notebook, notebook.lists);
    lemma_summaries(policy, notebook, notebook.lists);
    lemma_counted(notebook.notes, None, false);
    lemma_counted(notebook.notes, None, true);
    let shift: int = if policy.allow_inbox {
        1
    } else {
        0
    };
    if policy.allow_inbox {
        assert(told[0].list == (RefView { id: None, name: "Inbox"@ }));
    }
    assert forall|k: int| 0 <= k < told.len() implies summary_fits(
        policy,
        notebook,
        #[trigger] told[k],
    ) && names_list(notebook, told[k].list) by {
        if k >= shift {
            assert(told[k] == rest[k - shift]);
            assert(is_among(notebook.lists, rest[k - shift].list));
        }
    }
    assert forall|i: int|
        0 <= i < notebook.lists.len() && may_use(
            policy,
            Some((#[trigger] notebook.lists[i]).id),
        ) implies told_of(
        told,
        RefView { id: Some(notebook.lists[i].id), name: notebook.lists[i].name },
    ) by {
        let list = RefView { id: Some(notebook.lists[i].id), name: notebook.lists[i].name };
        let k = choose|k: int| 0 <= k < rest.len() && (#[trigger] rest[k]).list == list;
        assert(told[k + shift] == rest[k]);
    }
}

/// A text fits a todo: it is not blank, and not too long.
pub open spec fn fits_todo(text: Seq<char>) -> bool {
    0 < trimmed(text).len() <= 100_000
}

/// What the policy lets an agent do is done: it may read where reading is on, and write where the
/// policy is not one that only reads, on every list that it may use.
pub proof fn lemma_requests_granted(
    policy: PolicyView,
    notebook: NotebookView,
    searched: SearchRequest,
    listed: ListItemsRequest,
    added: AddTodoRequest,
    updated: UpdateTodoRequest,
    created: CreateListRequest,
    list: i64,
    note: NoteView,
    now: i64,
)
    requires
        list > 0,
        has_list(notebook.lists, list),
        may_use(policy, Some(list)),
        crate::notebook::largest(note_ids(notebook.notes)) < i64::MAX,
        crate::notebook::largest(list_ids(notebook.lists)) < i64::MAX,
    ensures
        policy.read_enabled && 0 < trimmed(searched.query@).len() <= 500 && searched.list_name is None
            && (searched.list_id is None || searched.list_id == Some(list)) ==> search_told(
            policy,
            notebook,
            searched,
        ) is Ok,
        policy.read_enabled && listed.query is None && listed.list_name is None && listed.list_id
            == Some(list) ==> list_told(policy, notebook, listed) is Ok,
        policy.write_mode != WriteMode::ReadOnly && fits_todo(added.content@) && added.list_name is None
            && added.list_id == Some(list) ==> todo_added(policy, notebook, added, now) is Ok,
        policy.write_mode != WriteMode::ReadOnly && fits_todo(updated.content@)
            && updated.list_name is None && updated.list_id == Some(list) && updated.item_id > 0
            && note_of(notebook.notes, updated.item_id) == Some(note) && may_use(policy, note.list)
            ==> todo_updated(policy, notebook, updated, now) is Ok,
        policy.write_mode == WriteMode::ManageLists && policy.allowed.len() == 0 && 0 < trimmed(
            created.name@,
        ).len() <= 80 && !trimmed(created.name@).contains('\n') && !trimmed(
            created.name@,
        ).contains('\r') && (forall|i: int|
            0 <= i < notebook.lists.len() ==> !same_name(
                (#[trigger] notebook.lists[i]).name,
                trimmed(created.name@),
            )) ==> list_created(policy, notebook, created, now) is Ok,
{
    lemma_resolved_list(policy, notebook, Some(list), None, false);
    lemma_resolved_list(policy, notebook, Some(list), None, true);
    lemma_found_by_name(notebook.lists, trimmed(created.name@));
    if let Some(id) = note.list {
        if policy.allowed.len() > 0 && may_use(policy, note.list) {
            let k = choose|k: int|
                0 <= k < policy.allowed.len() && #[trigger] policy.allowed[k] == id;
            assert(policy.allowed.contains(id));
        }
    }
    if let Some(found) = list_called(notebook.lists, trimmed(created.name@)) {
        let k = notebook.lists.index_of(found);
        assert(same_name(notebook.lists[k].name, trimmed(created.name@)));
    }
}

/// A note that is on a list which an agent may not use is neither shown to it nor changed by it.
pub proof fn lemma_other_lists_closed(
    policy: PolicyView,
    notebook: NotebookView,
    note: NoteView,
    updated: UpdateTodoRequest,
    set: SetDoneRequest,
    now: i64,
)
    requires
        note_of(notebook.notes, updated.item_id) == Some(note),
        set.item_id == updated.item_id,
        !may_use(policy, note.list),
    ensures
        todo_updated(policy, notebook, updated, now) is Err,
        todo_set(policy, notebook, set, now) is Err,
{
    if let Some(id) = note.list {
        if policy.allowed.contains(id) {
            assert(policy.allowed[policy.allowed.index_of(id)] == id);
        }
    }
}

} // verus!
