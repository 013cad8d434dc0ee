//! The notebook as text: for a Markdown file, and for the clipboard.

use vstd::prelude::*;
use vstd::string::*;

use crate::notebook::{CommandError, ListRow, ListView};
use crate::plain::views;
use crate::text::{chars_of, decimal, decimal_text};

verus! {

/// How many names are tried for an export.
pub const MAX_EXPORTS: u64 = 10_000;

/// A note as it is shown, with where its files lie.
#[derive(Debug, Clone, PartialEq, Eq)]
pub struct ShownItem {
    pub section_id: Option<i64>,
    pub content: String,
    pub done: bool,
    pub attachments: Vec<String>,
}

/// A note as it is shown.
pub struct ShownView {
    pub list: Option<i64>,
    pub content: Seq<char>,
    pub done: bool,
    pub paths: Seq<Seq<char>>,
}

impl View for ShownItem {
    type V = ShownView;

    open spec fn view(&self) -> ShownView {
        ShownView {
            list: self.section_id,
            content: self.content@,
            done: self.done,
            paths: views(self.attachments@),
        }
    }
}

/// The lists and notes in the order in which they are shown.
#[derive(Debug, Clone, PartialEq, Eq)]
pub struct AppState {
    pub sections: Vec<ListRow>,
    pub items: Vec<ShownItem>,
}

/// A text whose further lines are indented like those of a list item.
pub open spec fn indented(text: Seq<char>) -> Seq<char>
    decreases text.len(),
{
    if text.len() == 0 {
        Seq::empty()
    } else if text.last() == '\n' {
        indented(text.drop_last()) + "\n  "@
    } else {
        indented(text.drop_last()).push(text.last())
    }
}

/// The lines of the files of a note.
pub open spec fn paths_text(paths: Seq<Seq<char>>) -> Seq<char>
    decreases paths.len(),
{
    if paths.len() == 0 {
        Seq::empty()
    } else {
        paths_text(paths.drop_last()) + "  - Attachment: "@ + paths.last() + "\n"@
    }
}

/// The lines of a note.
pub open spec fn item_text(item: ShownView) -> Seq<char> {
    "- ["@ + (if item.done {
        "x"@
    } else {
        " "@
    }) + "] "@ + indented(item.content) + "\n"@ + paths_text(item.paths)
}

/// The lines of the notes on a list, or in the inbox.
pub open spec fn items_text(items: Seq<ShownView>, list: Option<i64>) -> Seq<char>
    decreases items.len(),
{
    if items.len() == 0 {
        Seq::empty()
    } else if items.last().list == list {
        items_text(items.drop_last(), list) + item_text(items.last())
    } else {
        items_text(items.drop_last(), list)
    }
}

/// The lines of the lists.
pub open spec fn lists_text(lists: Seq<ListView>, items: Seq<ShownView>) -> Seq<char>
    decreases lists.len(),
{
    if lists.len() == 0 {
        Seq::empty()
    } else {
        lists_text(lists.drop_last(), items) + "## "@ + lists.last().name + "\n\n"@ + items_text(
            items,
            Some(lists.last().id),
        ) + "\n"@
    }
}

/// There are notes in the inbox.
pub open spec fn inbox_used(items: Seq<ShownView>) -> bool {
    exists|i: int| 0 <= i < items.len() && (#[trigger] items[i]).list is None
}

/// The whole notebook as Markdown: the inbox first, where there is anything in it, and then list by
/// list.
pub open spec fn export_text(lists: Seq<ListView>, items: Seq<ShownView>) -> Seq<char> {
    "# Clippy export\n\n"@ + (if inbox_used(items) {
        items_text(items, None) + "\n"@
    } else {
        Seq::empty()
    }) + lists_text(lists, items)
}

fn indent(text: &str) -> (lines: String)
    ensures
        lines@ == indented(text@),
{
    let characters = chars_of(text);
    let mut lines = String::new();
    let mut at: usize = 0;
    assert(lines@ =~= indented(text@.take(0)));
    while at < characters.len()
        invariant
            characters@ == text@,
            at <= characters.len(),
            lines@ == indented(text@.take(at as int)),
        decreases characters.len() - at,
    {
        assert(text@.take(at + 1).drop_last() =~= text@.take(at as int));
        if characters[at] == '\n' {
            lines.append("\n  ");
        } else {
            lines.push(characters[at]);
        }
        at = at + 1;
    }
    assert(text@.take(at as int) =~= text@);
    lines
}

fn write_item(output: &mut String, item: &ShownItem)
    ensures
        final(output)@ == old(output)@ + item_text(item@),
{
    let ghost before = output@;
    output.append("- [");
    if item.done {
        output.append("x");
    } else {
        output.append(" ");
    }
    output.append("] ");
    output.append(indent(item.content.as_str()).as_str());
    output.append("\n");
    let ghost head = output@;
    let ghost all = item@.paths;
    let mut at: usize = 0;
    assert(head + paths_text(all.take(0)) =~= head);
    while at < item.attachments.len()
        invariant
            all == views(item.attachments@),
            at <= item.attachments.len(),
            output@ == head + paths_text(all.take(at as int)),
        decreases item.attachments.len() - at,
    {
        proof {
            assert(all.take(at + 1).drop_last() =~= all.take(at as int));
            assert(all.take(at + 1).last() == item.attachments@[at as int]@);
        }
        output.append("  - Attachment: ");
        output.append(item.attachments[at].as_str());
        output.append("\n");
        assert(output@ =~= head + paths_text(all.take(at + 1)));
        at = at + 1;
    }
    assert(all.take(at as int) =~= all);
    assert(output@ =~= before + item_text(item@));
}

fn write_items(output: &mut String, items: &[ShownItem], list: Option<i64>)
    ensures
        final(output)@ == old(output)@ + items_text(views(items@), list),
{
    let ghost head = output@;
    let ghost all = views(items@);
    let mut at: usize = 0;
    assert(head + items_text(all.take(0), list) =~= head);
    while at < items.len()
        invariant
            all == views(items@),
            at <= items.len(),
            output@ == head + items_text(all.take(at as int), list),
        decreases items.len() - at,
    {
        proof {
            assert(all.take(at + 1).drop_last() =~= all.take(at as int));
            assert(all.take(at + 1).last() == items@[at as int]@);
        }
        if items[at].section_id == list {
            write_item(output, &items[at]);
            assert(output@ =~= head + items_text(all.take(at + 1), list));
        }
        at = at + 1;
    }
    assert(all.take(at as int) =~= all);
}

fn uses_inbox(items: &[ShownItem]) -> (used: bool)
    ensures
        used == inbox_used(views(items@)),
{
    let ghost all = views(items@);
    let mut at: usize = 0;
    while at < items.len()
        invariant
            all == views(items@),
            at <= items.len(),
            forall|i: int| 0 <= i < at ==> (#[trigger] all[i]).list is Some,
        decreases items.len() - at,
    {
        assert(all[at as int] == items@[at as int]@);
        if items[at].section_id.is_none() {
            return true;
        }
        at = at + 1;
    }
    false
}

/// The whole notebook as Markdown.
pub fn export_markdown(state: &AppState) -> (text: String)
    ensures
        text@ == export_text(views(state.sections@), views(state.items@)),
{
    let ghost lists = views(state.sections@);
    let ghost items = views(state.items@);
    let mut text = "# Clippy export\n\n".to_owned();
    let ghost title = text@;
    if uses_inbox(state.items.as_slice()) {
        write_items(&mut text, state.items.as_slice(), None);
        text.append("\n");
        assert(text@ =~= title + (items_text(items, None) + "\n"@));
    } else {
        assert(text@ =~= title + Seq::empty());
    }
    let ghost head = text@;
    let mut at: usize = 0;
    assert(head + lists_text(lists.take(0), items) =~= head);
    while at < state.sections.len()
        invariant
            lists == views(state.sections@),
            items == views(state.items@),
            at <= state.sections.len(),
            text@ == head + lists_text(lists.take(at as int), items),
        decreases state.sections.len() - at,
    {
        proof {
            assert(lists.take(at + 1).drop_last() =~= lists.take(at as int));
            assert(lists.take(at + 1).last() == state.sections@[at as int]@);
        }
        text.append("## ");
        text.append(state.sections[at].name.as_str());
        text.append("\n\n");
        write_items(&mut text, state.items.as_slice(), Some(state.sections[at].id));
        text.append("\n");
        assert(text@ =~= head + lists_text(lists.take(at + 1), items));
        at = at + 1;
    }
    assert(lists.take(at as int) =~= lists);
    text
}

/// The name of an export, where so many names were taken.
pub open spec fn export_name_of(taken: u64) -> Seq<char> {
    if taken == 0 {
        "clippy-export.md"@
    } else {
        "clippy-export-"@ + decimal(taken as nat) + ".md"@
    }
}

/// The name of an export, where so many names were taken. There is an end to them.
pub fn export_name(taken: u64) -> (name: Option<String>)
    ensures
        if taken < MAX_EXPORTS {
            name matches Some(text) && text@ == export_name_of(taken)
        } else {
            name is None
        },
{
    if taken >= MAX_EXPORTS {
        return None;
    }
    if taken == 0 {
        return Some("clippy-export.md".to_owned());
    }
    let mut name = "clippy-export-".to_owned();
    name.append(decimal_text(taken).as_str());
    name.append(".md");
    Some(name)
}

/// The lines of paths, without an end to the last one.
pub open spec fn listed_paths(paths: Seq<Seq<char>>) -> Seq<char>
    decreases paths.len(),
{
    if paths.len() == 0 {
        Seq::empty()
    } else if paths.len() == 1 {
        "- "@ + paths[0]
    } else {
        listed_paths(paths.drop_last()) + "\n"@ + "- "@ + paths.last()
    }
}

/// A text to be copied, with where its files lie.
pub open spec fn copied_text(text: Seq<char>, paths: Seq<Seq<char>>) -> Seq<char> {
    if paths.len() == 0 {
        text
    } else {
        text + "\n\nAttachments:\n"@ + listed_paths(paths)
    }
}

/// A text to be copied, with where its files lie. There may be so many at most.
pub fn copy_text(text: &str, paths: &[String], most: usize) -> (result: Result<
    String,
    CommandError,
>)
    ensures
        if paths@.len() > most {
            result == Err::<String, CommandError>(CommandError::TooManyFiles)
        } else {
            result matches Ok(copied) && copied@ == copied_text(text@, views(paths@))
        },
{
    if paths.len() > most {
        return Err(CommandError::TooManyFiles);
    }
    let mut copied = text.to_owned();
    if paths.len() == 0 {
        return Ok(copied);
    }
    copied.append("\n\nAttachments:\n");
    let ghost head = copied@;
    let ghost all = views(paths@);
    let mut at: usize = 0;
    assert(head + listed_paths(all.take(0)) =~= head);
    while at < paths.len()
        invariant
            all == views(paths@),
            at <= paths.len(),
            copied@ == head + listed_paths(all.take(at as int)),
        decreases paths.len() - at,
    {
        proof {
            assert(all.take(at + 1).drop_last() =~= all.take(at as int));
            assert(all.take(at + 1).last() == paths@[at as int]@);
        }
        if at > 0 {
            copied.append("\n");
        }
        copied.append("- ");
        copied.append(paths[at].as_str());
        assert(copied@ =~= head + listed_paths(all.take(at + 1)));
        at = at + 1;
    }
    assert(all.take(at as int) =~= all);
    Ok(copied)
}

} // verus!
