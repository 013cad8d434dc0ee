//! What an export and a copied text hold: every note under its list, ticked off or not as it is, and
//! every file.

use vstd::prelude::*;
use vstd::string::*;

use crate::export::{
    copied_text, export_text, indented, item_text, items_text, listed_paths, lists_text, paths_text,
    ShownView,
};
use crate::notebook::ListView;

verus! {

/// Texts one behind the other.
pub open spec fn run_together(texts: Seq<Seq<char>>) -> Seq<char>
    decreases texts.len(),
{
    if texts.len() == 0 {
        Seq::empty()
    } else {
        run_together(texts.drop_last()) + texts.last()
    }
}

/// A text stands in another.
pub open spec fn stands_in(text: Seq<char>, part: Seq<char>) -> bool {
    exists|a: Seq<char>, b: Seq<char>| #[trigger] (a + part + b) == text
}

/// The box that stands before a note: crossed where it is done, else empty.
pub open spec fn box_of(done: bool) -> Seq<char> {
    seq!['-', ' ', '[', if done {
        'x'
    } else {
        ' '
    }, ']', ' ']
}

/// What runs together in front of a text and behind it stands around it.
proof fn lemma_runs(texts: Seq<Seq<char>>, i: int)
    requires
        0 <= i < texts.len(),
    ensures
        stands_in(run_together(texts), texts[i]),
    decreases texts.len(),
{
    let n = texts.len() - 1;
    let front = run_together(texts.drop_last());
    if i == n {
        assert(front + texts[i] + Seq::<char>::empty() =~= run_together(texts));
    } else {
        lemma_runs(texts.drop_last(), i);
        assert(texts.drop_last()[i] == texts[i]);
        let (a, b) = choose|a: Seq<char>, b: Seq<char>| #[trigger] (a + texts[i] + b) == front;
        assert(a + texts[i] + (b + texts.last()) =~= run_together(texts));
    }
}

/// A text that stands in a part stands in the whole.
proof fn lemma_stands_deeper(text: Seq<char>, part: Seq<char>, inner: Seq<char>)
    requires
        stands_in(text, part),
        stands_in(part, inner),
    ensures
        stands_in(text, inner),
{
    let (a, b) = choose|a: Seq<char>, b: Seq<char>| #[trigger] (a + part + b) == text;
    let (c, d) = choose|c: Seq<char>, d: Seq<char>| #[trigger] (c + inner + d) == part;
    assert((a + c) + inner + (d + b) =~= text);
}

/// The lines of the notes on a list are those of exactly these notes, in their order.
pub proof fn lemma_items_text(items: Seq<ShownView>, list: Option<i64>)
    ensures
        items_text(items, list) == run_together(
            items.filter(|item: ShownView| item.list == list).map_values(
                |item: ShownView| item_text(item),
            ),
        ),
    decreases items.len(),
{
    reveal(Seq::filter);
    let on = |item: ShownView| item.list == list;
    let said = |item: ShownView| item_text(item);
    if items.len() > 0 {
        let front = items.drop_last();
        lemma_items_text(front, list);
        let kept = front.filter(on);
        if items.last().list == list {
            assert(items.filter(on) == kept.push(items.last()));
            assert(kept.push(items.last()).map_values(said) =~= kept.map_values(said).push(
                item_text(items.last()),
            ));
            assert(kept.map_values(said).push(item_text(items.last())).drop_last()
                =~= kept.map_values(said));
        }
    } else {
        assert(items.filter(on).map_values(said) =~= Seq::empty());
    }
}

/// A note begins with its box and then has its text, and the path of each of its files.
pub proof fn lemma_item_text(item: ShownView)
    ensures
        box_of(item.done).is_prefix_of(item_text(item)),
        stands_in(item_text(item), indented(item.content)),
        forall|k: int|
            0 <= k < item.paths.len() ==> stands_in(item_text(item), #[trigger] item.paths[k]),
{
    reveal_strlit("- [");
    reveal_strlit("x");
    reveal_strlit(" ");
    reveal_strlit("] ");
    let mark = "- ["@ + (if item.done {
        "x"@
    } else {
        " "@
    }) + "] "@;
    assert(mark =~= box_of(item.done));
    let tail = "\n"@ + paths_text(item.paths);
    assert(item_text(item) =~= mark + indented(item.content) + tail);
    assert(item_text(item).take(6) =~= box_of(item.done));
    assert forall|k: int| 0 <= k < item.paths.len() implies stands_in(
        item_text(item),
        #[trigger] item.paths[k],
    ) by {
        lemma_paths_text(item.paths, k);
        let whole = mark + indented(item.content) + "\n"@;
        assert(whole + paths_text(item.paths) + Seq::<char>::empty() =~= item_text(item));
        assert(stands_in(item_text(item), paths_text(item.paths)));
        lemma_stands_deeper(item_text(item), paths_text(item.paths), item.paths[k]);
    }
}

proof fn lemma_paths_text(paths: Seq<Seq<char>>, k: int)
    requires
        0 <= k < paths.len(),
    ensures
        stands_in(paths_text(paths), paths[k]),
    decreases paths.len(),
{
    let front = paths_text(paths.drop_last());
    if k == paths.len() - 1 {
        assert((front + "  - Attachment: "@) + paths[k] + "\n"@ =~= paths_text(paths));
    } else {
        lemma_paths_text(paths.drop_last(), k);
        assert(paths.drop_last()[k] == paths[k]);
        let (a, b) = choose|a: Seq<char>, b: Seq<char>| #[trigger] (a + paths[k] + b) == front;
        assert(a + paths[k] + (b + "  - Attachment: "@ + paths.last() + "\n"@) =~= paths_text(
            paths,
        ));
    }
}

/// The heading of a list, with the notes that stand on it.
pub open spec fn chapter(list: ListView, items: Seq<ShownView>) -> Seq<char> {
    seq!['#', '#', ' '] + list.name + seq!['\n', '\n'] + items_text(items, Some(list.id)) + seq![
        '\n',
    ]
}

proof fn lemma_lists_text(lists: Seq<ListView>, items: Seq<ShownView>)
    ensures
        lists_text(lists, items) == run_together(
            lists.map_values(|list: ListView| chapter(list, items)),
        ),
    decreases lists.len(),
{
    reveal_strlit("## ");
    reveal_strlit("\n\n");
    reveal_strlit("\n");
    assert("## "@ =~= seq!['#', '#', ' ']);
    assert("\n\n"@ =~= seq!['\n', '\n']);
    assert("\n"@ =~= seq!['\n']);
    let said = |list: ListView| chapter(list, items);
    if lists.len() > 0 {
        let front = lists.drop_last();
        lemma_lists_text(front, items);
        assert(lists.map_values(said).drop_last() =~= front.map_values(said));
        assert(lists.map_values(said).last() == chapter(lists.last(), items));
        assert(lists_text(lists, items) =~= lists_text(front, items) + chapter(
            lists.last(),
            items,
        ));
    } else {
        assert(lists.map_values(said) =~= Seq::empty());
    }
}

/// An export holds a chapter for every list, one behind the other, and before them the notes of the
/// inbox. So every note is in it: under the heading of its list, or in the inbox.
pub proof fn lemma_export_holds_all(lists: Seq<ListView>, items: Seq<ShownView>, j: int)
    requires
        0 <= j < items.len(),
        items[j].list matches Some(id) ==> exists|i: int|
            0 <= i < lists.len() && (#[trigger] lists[i]).id == id,
    ensures
        stands_in(export_text(lists, items), item_text(items[j])),
        forall|i: int|
            0 <= i < lists.len() ==> stands_in(
                export_text(lists, items),
                chapter(#[trigger] lists[i], items),
            ),
        items[j].list matches Some(id) ==> forall|i: int|
            0 <= i < lists.len() && (#[trigger] lists[i]).id == id ==> stands_in(
                chapter(lists[i], items),
                item_text(items[j]),
            ),
{
    let whole = export_text(lists, items);
    let said = |list: ListView| chapter(list, items);
    let chapters = lists.map_values(said);
    lemma_lists_text(lists, items);
    let title = "# Clippy export\n\n"@;
    let inbox = if crate::export::inbox_used(items) {
        items_text(items, None) + "\n"@
    } else {
        Seq::empty()
    };
    assert((title + inbox) + lists_text(lists, items) + Seq::<char>::empty() =~= whole);
    assert(stands_in(whole, lists_text(lists, items)));
    assert forall|i: int| 0 <= i < lists.len() implies stands_in(
        whole,
        chapter(#[trigger] lists[i], items),
    ) by {
        lemma_runs(chapters, i);
        assert(chapters[i] == chapter(lists[i], items));
        lemma_stands_deeper(whole, lists_text(lists, items), chapters[i]);
    }
    lemma_line_stands(items, j);
    let lines = items_text(items, items[j].list);
    match items[j].list {
        Some(id) => {
            assert forall|i: int| 0 <= i < lists.len() && (#[trigger] lists[i]).id == id implies stands_in(
                chapter(lists[i], items),
                item_text(items[j]),
            ) by {
                let head = seq!['#', '#', ' '] + lists[i].name + seq!['\n', '\n'];
                assert(head + lines + seq!['\n'] =~= chapter(lists[i], items));
                assert(stands_in(chapter(lists[i], items), lines));
                lemma_stands_deeper(chapter(lists[i], items), lines, item_text(items[j]));
            }
            let i = choose|i: int| 0 <= i < lists.len() && (#[trigger] lists[i]).id == id;
            lemma_stands_deeper(whole, chapter(lists[i], items), item_text(items[j]));
        },
        None => {
            assert(crate::export::inbox_used(items));
            assert(title + lines + ("\n"@ + lists_text(lists, items)) =~= whole);
            assert(stands_in(whole, lines));
            lemma_stands_deeper(whole, lines, item_text(items[j]));
        },
    }
}

proof fn lemma_line_stands(items: Seq<ShownView>, j: int)
    requires
        0 <= j < items.len(),
    ensures
        stands_in(items_text(items, items[j].list), item_text(items[j])),
    decreases items.len(),
{
    let list = items[j].list;
    let front = items.drop_last();
    if j == items.len() - 1 {
        assert(items_text(front, list) + item_text(items[j]) + Seq::<char>::empty() =~= items_text(
            items,
            list,
        ));
    } else {
        lemma_line_stands(front, j);
        assert(front[j] == items[j]);
        let (a, b) = choose|a: Seq<char>, b: Seq<char>| #[trigger]
            (a + item_text(items[j]) + b) == items_text(front, list);
        if items.last().list == list {
            assert(a + item_text(items[j]) + (b + item_text(items.last())) =~= items_text(
                items,
                list,
            ));
        } else {
            assert(a + item_text(items[j]) + b =~= items_text(items, list));
        }
    }
}

/// Indenting leaves a text of one line as it is, and sets each further line in by two blanks.
pub proof fn lemma_indented(first: Seq<char>, rest: Seq<char>)
    requires
        !first.contains('\n'),
    ensures
        indented(first) == first,
        indented(first + seq!['\n'] + rest) == first + seq!['\n', ' ', ' '] + indented(rest),
    decreases rest.len(),
{
    lemma_one_line(first);
    reveal_strlit("\n  ");
    assert("\n  "@ =~= seq!['\n', ' ', ' ']);
    let text = first + seq!['\n'] + rest;
    if rest.len() == 0 {
        assert(text.drop_last() =~= first);
        assert(text.last() == '\n');
        assert(indented(text) =~= first + seq!['\n', ' ', ' '] + indented(rest));
    } else {
        lemma_indented(first, rest.drop_last());
        assert(text.drop_last() =~= first + seq!['\n'] + rest.drop_last());
        assert(text.last() == rest.last());
        assert(indented(text) =~= first + seq!['\n', ' ', ' '] + indented(rest));
    }
}

proof fn lemma_one_line(text: Seq<char>)
    requires
        !text.contains('\n'),
    ensures
        indented(text) == text,
    decreases text.len(),
{
    if text.len() > 0 {
        let front = text.drop_last();
        assert(text[text.len() - 1] != '\n');
        assert(!front.contains('\n')) by {
            if front.contains('\n') {
                assert(text[front.index_of('\n')] == '\n');
            }
        }
        lemma_one_line(front);
        assert(front.push(text.last()) =~= text);
    } else {
        assert(indented(text) =~= text);
    }
}

/// A copied text begins with the text, and is nothing but the text where there are no files; each of
/// the files is named in it.
pub proof fn lemma_copied_text(text: Seq<char>, paths: Seq<Seq<char>>)
    ensures
        text.is_prefix_of(copied_text(text, paths)),
        paths.len() == 0 ==> copied_text(text, paths) == text,
        forall|k: int|
            0 <= k < paths.len() ==> stands_in(copied_text(text, paths), #[trigger] paths[k]),
{
    let whole = copied_text(text, paths);
    assert(whole.take(text.len() as int) =~= text);
    assert forall|k: int| 0 <= k < paths.len() implies stands_in(whole, #[trigger] paths[k]) by {
        lemma_listed(paths, k);
        let head = text + "\n\nAttachments:\n"@;
        assert(head + listed_paths(paths) + Seq::<char>::empty() =~= whole);
        assert(stands_in(whole, listed_paths(paths)));
        lemma_stands_deeper(whole, listed_paths(paths), paths[k]);
    }
}

proof fn lemma_listed(paths: Seq<Seq<char>>, k: int)
    requires
        0 <= k < paths.len(),
    ensures
        stands_in(listed_paths(paths), paths[k]),
    decreases paths.len(),
{
    let front = listed_paths(paths.drop_last());
    if paths.len() == 1 {
        assert("- "@ + paths[0] + Seq::<char>::empty() =~= listed_paths(paths));
    } else if k == paths.len() - 1 {
        assert((front + "\n"@ + "- "@) + paths[k] + Seq::<char>::empty() =~= listed_paths(paths));
    } else {
        lemma_listed(paths.drop_last(), k);
        assert(paths.drop_last()[k] == paths[k]);
        let (a, b) = choose|a: Seq<char>, b: Seq<char>| #[trigger] (a + paths[k] + b) == front;
        assert(a + paths[k] + (b + "\n"@ + "- "@ + paths.last()) =~= listed_paths(paths));
    }
}

} // verus!
