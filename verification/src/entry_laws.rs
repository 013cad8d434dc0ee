//! What comes of an entry, of a captured text and of files that are attached.

use vstd::prelude::*;
use vstd::string::*;

use crate::attachments::{path_in, stored_name};
use crate::capture::{recently_captured, DUPLICATE_WINDOW};
use crate::entries::{
    all_inspected, copy_path, entered, has_path, inspected, lemma_largest, note_added, CandidateView,
    EntryView, FactsView,
};
use crate::limits::{MAX_ATTACHMENT_BYTES, MAX_ITEM_CHARS, MAX_SECTION_CHARS};
use crate::note_laws::{lemma_opening_opens, same_name};
use crate::notebook::{
    file_ids, has_note, largest, list_named, name_fault, note_fault, note_ids, CommandError,
    NoteView, NotebookView,
};
use crate::text::{decimal, lemma_decimal, signed_decimal, trimmed, whitespace};

verus! {

/// Trimming takes white space off both ends, all of it, and nothing else.
pub proof fn lemma_trimmed(text: Seq<char>)
    ensures
        exists|a: int, b: int|
            #![trigger text.subrange(a, b)]
            {
                &&& 0 <= a <= b <= text.len()
                &&& trimmed(text) == text.subrange(a, b)
                &&& forall|i: int| 0 <= i < a ==> whitespace(#[trigger] text[i])
                &&& forall|i: int| b <= i < text.len() ==> whitespace(#[trigger] text[i])
            },
        trimmed(text).len() > 0 ==> !whitespace(trimmed(text)[0]) && !whitespace(
            trimmed(text).last(),
        ),
{
    lemma_trim_start(text);
    let rest = crate::text::trim_start(text);
    let a = text.len() - rest.len();
    lemma_trim_end(rest);
    let whole = crate::text::trim_end(rest);
    let b = a + whole.len();
    assert(text.subrange(a, b) =~= whole);
    assert forall|i: int| b <= i < text.len() implies whitespace(#[trigger] text[i]) by {
        assert(rest[i - a] == text[i]);
    }
}

proof fn lemma_trim_start(text: Seq<char>)
    ensures
        crate::text::trim_start(text).len() <= text.len(),
        crate::text::trim_start(text) == text.skip(
            text.len() - crate::text::trim_start(text).len(),
        ),
        forall|i: int|
            0 <= i < text.len() - crate::text::trim_start(text).len() ==> whitespace(
                #[trigger] text[i],
            ),
        crate::text::trim_start(text).len() > 0 ==> !whitespace(crate::text::trim_start(text)[0]),
    decreases text.len(),
{
    let kept = crate::text::trim_start(text);
    if text.len() > 0 && whitespace(text[0]) {
        let rest = text.drop_first();
        lemma_trim_start(rest);
        assert(text.skip(text.len() - kept.len()) =~= rest.skip(rest.len() - kept.len()));
        assert forall|i: int| 0 <= i < text.len() - kept.len() implies whitespace(
            #[trigger] text[i],
        ) by {
            if i > 0 {
                assert(rest[i - 1] == text[i]);
            }
        }
    } else {
        assert(text.skip(0) =~= text);
    }
}

proof fn lemma_trim_end(text: Seq<char>)
    ensures
        crate::text::trim_end(text).len() <= text.len(),
        crate::text::trim_end(text) == text.take(crate::text::trim_end(text).len() as int),
        forall|i: int|
            crate::text::trim_end(text).len() <= i < text.len() ==> whitespace(#[trigger] text[i]),
        crate::text::trim_end(text).len() > 0 ==> !whitespace(
            crate::text::trim_end(text).last(),
        ) && crate::text::trim_end(text)[0] == text[0],
    decreases text.len(),
{
    let kept = crate::text::trim_end(text);
    if text.len() > 0 && whitespace(text.last()) {
        let rest = text.drop_last();
        lemma_trim_end(rest);
        assert(text.take(kept.len() as int) =~= rest.take(kept.len() as int));
        assert forall|i: int| kept.len() <= i < text.len() implies whitespace(
            #[trigger] text[i],
        ) by {
            if i < rest.len() {
                assert(rest[i] == text[i]);
            }
        }
    } else {
        assert(text.take(text.len() as int) =~= text);
    }
}

/// The identifiers of rows are all below a number.
proof fn lemma_new_note_id(notes: Seq<NoteView>, id: i64)
    requires
        id > largest(note_ids(notes)),
    ensures
        !has_note(notes, id),
{
    let ids = note_ids(notes);
    lemma_largest(ids);
    if has_note(notes, id) {
        let k = choose|k: int| 0 <= k < notes.len() && (#[trigger] notes[k]).id == id;
        assert(ids[k] <= largest(ids));
    }
}

/// A new note stands last, on the list that is open, with its text, open, made and changed now, under
/// an identifier that no note had. Each of its files is attached to it under an identifier of its own,
/// as it was found, and is to be copied from where it was found to where its row says. Every other
/// note, file and list stays as it is.
pub proof fn lemma_note_added(
    notebook: NotebookView,
    content: Seq<char>,
    candidates: Seq<CandidateView>,
    directory: Seq<char>,
    now: i64,
)
    ensures
        note_added(notebook, content, candidates, directory, now) matches Ok((after, id, copies))
            ==> {
            let n = notebook.files.len() as int;
            &&& !has_note(notebook.notes, id)
            &&& after.notes.len() == notebook.notes.len() + 1
            &&& after.notes.drop_last() == notebook.notes
            &&& after.notes.last() == (NoteView {
                id,
                list: notebook.active,
                content,
                done: false,
                created_at: now,
                updated_at: now,
            })
            &&& after.lists == notebook.lists
            &&& after.active == notebook.active
            &&& after.files.len() == n + candidates.len()
            &&& after.files.take(n) == notebook.files
            &&& copies.len() == candidates.len()
            &&& forall|i: int|
                0 <= i < candidates.len() ==> {
                    let file = #[trigger] after.files[n + i];
                    &&& file.note == id
                    &&& file.name == candidates[i].name
                    &&& file.media_type == candidates[i].media_type
                    &&& file.size == candidates[i].size
                    &&& file.created_at == now
                    &&& copies[i].0 == candidates[i].path
                    &&& copies[i].1 == file.path
                    &&& forall|k: int|
                        0 <= k < n + i ==> (#[trigger] after.files[k]).id != file.id
                }
        },
        largest(note_ids(notebook.notes)) < i64::MAX && largest(file_ids(notebook.files))
            + candidates.len() <= i64::MAX ==> note_added(
            notebook,
            content,
            candidates,
            directory,
            now,
        ) is Ok,
{
    let numbers = file_ids(notebook.files);
    lemma_largest(numbers);
    lemma_largest(note_ids(notebook.notes));
    if let Ok((after, id, copies)) = note_added(notebook, content, candidates, directory, now) {
        let n = notebook.files.len() as int;
        lemma_new_note_id(notebook.notes, id);
        assert(after.notes.drop_last() =~= notebook.notes);
        assert(after.files.take(n) =~= notebook.files);
        assert forall|i: int| 0 <= i < candidates.len() implies {
            let file = #[trigger] after.files[n + i];
            &&& file.note == id
            &&& file.name == candidates[i].name
            &&& file.media_type == candidates[i].media_type
            &&& file.size == candidates[i].size
            &&& file.created_at == now
            &&& copies[i].0 == candidates[i].path
            &&& copies[i].1 == file.path
            &&& forall|k: int| 0 <= k < n + i ==> (#[trigger] after.files[k]).id != file.id
        } by {
            let file = after.files[n + i];
            assert(file.id == largest(numbers) + 1 + i);
            assert forall|k: int| 0 <= k < n + i implies (#[trigger] after.files[k]).id
                != file.id by {
                if k < n {
                    assert(after.files[k] == notebook.files[k]);
                    assert(numbers[k] <= largest(numbers));
                } else {
                    assert(after.files[k].id == largest(numbers) + 1 + (k - n));
                }
            }
        }
    }
}

/// A file is attached as it is: what is kept of it is its path, its name and its size. A folder, a
/// file that is too large and one without a name are refused, and nothing else is.
pub proof fn lemma_inspected(facts: FactsView)
    ensures
        inspected(facts) is Ok <==> facts.is_file && facts.size <= MAX_ATTACHMENT_BYTES && (
        facts.name matches Some(name) && name.len() > 0),
        inspected(facts) matches Ok(candidate) ==> {
            &&& candidate.path == facts.path
            &&& facts.name == Some(candidate.name)
            &&& candidate.size == facts.size
            &&& !candidate.temporary
            &&& candidate.preview is Some ==> facts.content is Some
        },
        inspected(facts) matches Err(fault) ==> fault == if !facts.is_file {
            CommandError::Folder
        } else if facts.size > MAX_ATTACHMENT_BYTES {
            CommandError::LargeFile
        } else {
            CommandError::NamelessFile
        },
{
}

/// Of several files each is attached once, in their order, as it is alone.
pub proof fn lemma_all_inspected(facts: Seq<FactsView>)
    ensures
        match all_inspected(facts) {
            Ok(candidates) => {
                &&& forall|i: int|
                    0 <= i < facts.len() ==> inspected(#[trigger] facts[i]) is Ok && has_path(
                        candidates,
                        facts[i].path,
                    )
                &&& forall|k: int|
                    0 <= k < candidates.len() ==> exists|i: int|
                        0 <= i < facts.len() && inspected(#[trigger] facts[i]) == Ok::<
                            CandidateView,
                            CommandError,
                        >(#[trigger] candidates[k])
                &&& forall|j: int, k: int|
                    0 <= j < k < candidates.len() ==> candidates[j].path != candidates[k].path
            },
            Err(fault) => exists|i: int|
                0 <= i < facts.len() && inspected(#[trigger] facts[i]) == Err::<
                    CandidateView,
                    CommandError,
                >(fault),
        },
    decreases facts.len(),
{
    if facts.len() > 0 {
        let shorter = facts.drop_last();
        let n = facts.len() - 1;
        lemma_all_inspected(shorter);
        assert(facts[n] == facts.last());
        match all_inspected(shorter) {
            Err(fault) => {
                let i = choose|i: int|
                    0 <= i < shorter.len() && inspected(#[trigger] shorter[i]) == Err::<
                        CandidateView,
                        CommandError,
                    >(fault);
                assert(facts[i] == shorter[i]);
            },
            Ok(front) => match inspected(facts.last()) {
                Err(fault) => {
                    assert(inspected(facts[n]) == Err::<CandidateView, CommandError>(fault));
                },
                Ok(candidate) => {
                    let candidates = all_inspected(facts)->Ok_0;
                    assert forall|i: int| 0 <= i < facts.len() implies inspected(
                        #[trigger] facts[i],
                    ) is Ok && has_path(candidates, facts[i].path) by {
                        if i < n {
                            assert(shorter[i] == facts[i]);
                            let k = choose|k: int|
                                0 <= k < front.len() && (#[trigger] front[k]).path
                                    == facts[i].path;
                            assert(candidates[k] == front[k]);
                        } else if has_path(front, candidate.path) {
                        } else {
                            assert(candidates[front.len() as int].path == facts[n].path);
                        }
                    }
                    assert forall|k: int| 0 <= k < candidates.len() implies exists|i: int|
                        0 <= i < facts.len() && inspected(#[trigger] facts[i]) == Ok::<
                            CandidateView,
                            CommandError,
                        >(#[trigger] candidates[k]) by {
                        if k < front.len() {
                            assert(candidates[k] == front[k]);
                            let i = choose|i: int|
                                0 <= i < shorter.len() && inspected(#[trigger] shorter[i]) == Ok::<
                                    CandidateView,
                                    CommandError,
                                >(front[k]);
                            assert(facts[i] == shorter[i]);
                        } else {
                            assert(inspected(facts[n]) == Ok::<CandidateView, CommandError>(
                                candidates[k],
                            ));
                        }
                    }
                },
            },
        }
    }
}

/// The name that an entry opens a list by, if it does: what stands behind one or two hash signs and a
/// blank.
pub open spec fn heading(text: Seq<char>, name: Seq<char>) -> bool {
    text == seq!['#', ' '] + name || text == seq!['#', '#', ' '] + name
}

/// An entry is a heading exactly where one or two hash signs and a blank stand before the name.
pub proof fn lemma_heading(text: Seq<char>)
    ensures
        list_named(text) matches Some(name) ==> heading(text, name),
        forall|name: Seq<char>| #[trigger] heading(text, name) ==> list_named(text) is Some,
        list_named(text) is None ==> forall|name: Seq<char>| !#[trigger] heading(text, name),
{
    reveal_strlit("# ");
    reveal_strlit("## ");
    assert("# "@ =~= seq!['#', ' ']);
    assert("## "@ =~= seq!['#', '#', ' ']);
    if let Some(name) = list_named(text) {
        if crate::text::starts_with(text, "## "@) {
            assert(text =~= seq!['#', '#', ' '] + name);
        } else {
            assert(text =~= seq!['#', ' '] + name);
        }
    }
    assert forall|name: Seq<char>| #[trigger] heading(text, name) implies list_named(
        text,
    ) is Some by {
        if text == seq!['#', ' '] + name {
            assert(text.take(2) =~= seq!['#', ' ']);
        } else {
            assert(text.take(3) =~= seq!['#', '#', ' ']);
        }
    }
}

/// An entry that is no heading, has a text that is neither empty nor too long and no more files than
/// are taken becomes a note on the open list with that text, without the blanks around it. One that
/// is a heading opens the list of that name, and adds no note.
pub proof fn lemma_entered(
    notebook: NotebookView,
    content: Seq<char>,
    files: Seq<FactsView>,
    most: usize,
    directory: Seq<char>,
    now: i64,
)
    ensures
        match entered(notebook, content, files, most, directory, now) {
            Ok((after, EntryView::Added(id, copies))) => {
                &&& forall|name: Seq<char>| !#[trigger] heading(trimmed(content), name)
                &&& 0 < trimmed(content).len() <= MAX_ITEM_CHARS
                &&& files.len() <= most
                &&& after.notes.drop_last() == notebook.notes
                &&& after.notes.last() == (NoteView {
                    id,
                    list: notebook.active,
                    content: trimmed(content),
                    done: false,
                    created_at: now,
                    updated_at: now,
                })
                &&& !has_note(notebook.notes, id)
                &&& all_inspected(files) matches Ok(candidates) && note_added(
                    notebook,
                    trimmed(content),
                    candidates,
                    directory,
                    now,
                ) == Ok::<_, CommandError>((after, id, copies))
            },
            Ok((after, EntryView::Opened(id))) => exists|name: Seq<char>| #[trigger]
                heading(trimmed(content), name) && after.active == Some(id) && after.notes
                    == notebook.notes && after.files == notebook.files && files.len() == 0 && exists|
                    i: int,
                |
                    0 <= i < after.lists.len() && (#[trigger] after.lists[i]).id == id && same_name(
                        after.lists[i].name,
                        trimmed(name),
                    ),
            Err(_) => true,
        },
        0 < trimmed(content).len() <= MAX_ITEM_CHARS && files.len() == 0 && (forall|
            name: Seq<char>,
        |
            !#[trigger] heading(trimmed(content), name)) && largest(note_ids(notebook.notes))
            < i64::MAX ==> entered(notebook, content, files, most, directory, now) matches Ok(
            (_, EntryView::Added(_, _)),
        ),
{
    lemma_heading(trimmed(content));
    lemma_largest(file_ids(notebook.files));
    if let Ok(candidates) = all_inspected(files) {
        lemma_note_added(notebook, trimmed(content), candidates, directory, now);
    }
    if let Some(name) = list_named(trimmed(content)) {
        lemma_opening_opens(notebook, trimmed(name), now);
        assert(heading(trimmed(content), name));
    }
}

/// A text that was just captured to a list counts as captured there for a moment, and no longer: the
/// same text is then a new note again. Another text, or the same one on another list, is never held
/// back by it.
pub proof fn lemma_captured_once(
    notebook: NotebookView,
    text: Seq<char>,
    other: Seq<char>,
    list: Option<i64>,
    now: i64,
    later: i64,
)
    requires
        !recently_captured(NotebookView { active: list, ..notebook }, other, later),
    ensures
        note_added(notebook, text, Seq::empty(), Seq::empty(), now) matches Ok((after, id, _))
            ==> (recently_captured(NotebookView { active: list, ..after }, other, later)
            <==> other == text && list == notebook.active && later <= now + 1_500),
{
    lemma_note_added(notebook, text, Seq::empty(), Seq::empty(), now);
    if let Ok((added, id, copies)) = note_added(
        notebook,
        text,
        Seq::empty(),
        Seq::empty(),
        now,
    ) {
        let before = NotebookView { active: list, ..notebook };
        let after = NotebookView { active: list, ..added };
        let n = notebook.notes.len() as int;
        assert(after.notes[n] == after.notes.last());
        if recently_captured(after, other, later) {
            let i = choose|i: int|
                0 <= i < after.notes.len() && (#[trigger] after.notes[i]).content == other
                    && after.notes[i].list == after.active && after.notes[i].created_at >= later
                    - DUPLICATE_WINDOW;
            if i < n {
                assert(added.notes.drop_last()[i] == after.notes[i]);
                assert(before.notes[i].content == other);
            }
        }
        if other == text && list == notebook.active && later <= now + 1_500 {
            assert(after.notes[n].content == other);
        }
    }
}

/// The copies of the files of a note are kept apart, whatever the files are called.
pub proof fn lemma_copies_apart(
    directory: Seq<char>,
    note: i64,
    now: i64,
    i: int,
    j: int,
    source: Seq<char>,
    other: Seq<char>,
)
    requires
        0 <= i,
        0 <= j,
        i != j,
    ensures
        copy_path(directory, note, now, i, source) != copy_path(directory, note, now, j, other),
{
    let head = signed_decimal(note as int) + "-"@ + signed_decimal(now as int) + "-"@;
    let first = head + decimal(i as nat);
    let second = head + decimal(j as nat);
    lemma_decimal(i as nat);
    lemma_decimal(j as nat);
    lemma_stem(first, source);
    lemma_stem(second, other);
    let a = stored_name(first, source);
    let b = stored_name(second, other);
    if path_in(directory, a) == path_in(directory, b) {
        let front: int = if directory.len() == 0 || directory.last() == '/' {
            directory.len() as int
        } else {
            directory.len() as int + 1
        };
        assert(path_in(directory, a).skip(front) =~= a);
        assert(path_in(directory, b).skip(front) =~= b);
        let n = head.len() as int;
        let x = a.skip(n);
        let y = b.skip(n);
        assert(x == y);
        let p = decimal(i as nat);
        let q = decimal(j as nat);
        assert(x.take(p.len() as int) =~= p);
        assert(y.take(q.len() as int) =~= q);
        if p.len() < q.len() {
            assert(x[p.len() as int] == '.');
            assert(y[p.len() as int] == q[p.len() as int]);
        } else if q.len() < p.len() {
            assert(y[q.len() as int] == '.');
            assert(x[q.len() as int] == p[q.len() as int]);
        }
        assert(p =~= q);
    }
}

/// A file is kept under its stem, with nothing behind it, or with a full stop and an ending.
proof fn lemma_stem(stem: Seq<char>, source: Seq<char>)
    ensures
        stored_name(stem, source).len() >= stem.len(),
        stored_name(stem, source).take(stem.len() as int) == stem,
        stored_name(stem, source).len() > stem.len() ==> stored_name(stem, source)[stem.len() as int]
            == '.',
{
    assert(stored_name(stem, source).take(stem.len() as int) =~= stem);
}

/// A text is taken for a note exactly where something other than white space is in it, and not too
/// much.
pub proof fn lemma_note_fault(text: Seq<char>)
    ensures
        note_fault(text) is None <==> 0 < trimmed(text).len() <= MAX_ITEM_CHARS,
        note_fault(text) matches Some(fault) ==> fault == if trimmed(text).len() == 0 {
            CommandError::EmptyNote
        } else {
            CommandError::LongNote
        },
        name_fault(text) is None ==> 0 < trimmed(text).len() <= MAX_SECTION_CHARS && forall|i: int|
            0 <= i < trimmed(text).len() ==> #[trigger] trimmed(text)[i] != '\n' && trimmed(text)[i]
                != '\r',
        0 < trimmed(text).len() <= MAX_SECTION_CHARS && (forall|i: int|
            0 <= i < trimmed(text).len() ==> #[trigger] trimmed(text)[i] != '\n' && trimmed(text)[i]
                != '\r') ==> name_fault(text) is None,
{
    let name = trimmed(text);
    if name_fault(text) is None {
        assert forall|i: int| 0 <= i < name.len() implies #[trigger] name[i] != '\n' && name[i]
            != '\r' by {
            if name[i] == '\n' {
                assert(name.contains('\n'));
            }
            if name[i] == '\r' {
                assert(name.contains('\r'));
            }
        }
    }
}

} // verus!
