use clippy_sync::capture::{
    dock_position, feedback_position, selection_action, tap_action, Captured, CopyPoll,
    ListenerState, Placement, Selection, SelectionAction, Side, TapAction, TapState,
};
use clippy_sync::entries::{
    attachment_media_type, attachment_preview, check_pasted_image, check_theme,
    inspect_attachment_path, inspect_attachment_paths, plan_shortcuts, stored_attachment_path,
    wants_preview, Entry, FileCopy, FileFacts, ShortcutPlan,
};
use clippy_sync::export::{copy_text, export_markdown, export_name, AppState, ShownItem};
use clippy_sync::notebook::{
    entry_list_name, item_content, item_ids, section_name, CommandError, ListRow, NoteFile,
    NoteRow, Notebook, Scope,
};

fn note(id: i64, list: Option<i64>, content: &str, done: bool) -> NoteRow {
    NoteRow {
        id,
        section_id: list,
        content: content.into(),
        done,
        created_at: id,
        updated_at: id,
    }
}

fn list(id: i64, name: &str) -> ListRow {
    ListRow { id, name: name.into(), created_at: 1 }
}

fn file(id: i64, item_id: i64, path: &str) -> NoteFile {
    NoteFile {
        id,
        item_id,
        name: "a.txt".into(),
        stored_path: path.into(),
        media_type: "text/plain".into(),
        size: 3,
        created_at: 1,
    }
}

fn notebook() -> Notebook {
    Notebook {
        sections: vec![list(1, "Work"), list(2, "Home")],
        items: vec![
            note(1, None, "one", false),
            note(2, Some(1), "two", true),
            note(3, Some(1), "three", false),
        ],
        attachments: vec![file(1, 2, "/kept/2.txt"), file(2, 3, "/kept/3.txt")],
        active_section: Some(1),
    }
}

fn facts(path: &str, content: Option<Vec<u8>>) -> FileFacts {
    FileFacts {
        path: path.into(),
        is_file: true,
        size: content.as_ref().map_or(5, |bytes| bytes.len() as u64),
        name: Some(path.rsplit('/').next().unwrap().into()),
        content,
    }
}

#[test]
fn accepts_new_and_legacy_inline_list_commands() {
    assert_eq!(entry_list_name("## Docs review"), Some("Docs review"));
    assert_eq!(entry_list_name("# Docs review"), Some("Docs review"));
    assert_eq!(entry_list_name("Review ## headings"), None);
}

#[test]
fn inspects_image_attachments_for_composer_previews() {
    let path = std::path::PathBuf::from("/tmp/clippy-attachment-test-1-2.png");
    let content = b"not-a-real-image-but-safe-to-preview".to_vec();
    let attachment = inspect_attachment_path(&FileFacts {
        path: path.to_str().unwrap().into(),
        is_file: true,
        size: content.len() as u64,
        name: Some(path.file_name().unwrap().to_str().unwrap().into()),
        content: Some(content),
    })
    .unwrap();
    assert_eq!(attachment.name, path.file_name().unwrap().to_string_lossy());
    assert_eq!(attachment.media_type, "image/png");
    assert!(attachment.preview.unwrap().starts_with("data:image/png;base64,"));
}

#[test]
fn previews_are_padded_base64() {
    assert_eq!(
        attachment_preview("image/gif", 4, &Some(vec![0xfb, 0xff, 0x00, 0x01])),
        Some("data:image/gif;base64,+/8AAQ==".into())
    );
    assert_eq!(attachment_preview("text/plain", 1, &Some(vec![1])), None);
    assert_eq!(attachment_preview("image/png", 8_388_609, &Some(vec![1])), None);
    assert_eq!(attachment_preview("image/png", 1, &None), None);
    assert!(wants_preview("image/png", 8_388_608));
    assert!(!wants_preview("image/png", 8_388_609));
}

#[test]
fn files_that_cannot_be_attached_have_their_own_errors() {
    let mut folder = facts("/a/folder", None);
    folder.is_file = false;
    assert_eq!(inspect_attachment_path(&folder), Err(CommandError::Folder));
    let mut large = facts("/a/large.zip", None);
    large.size = 262_144_001;
    assert_eq!(inspect_attachment_path(&large), Err(CommandError::LargeFile));
    large.size = 262_144_000;
    assert_eq!(inspect_attachment_path(&large).unwrap().media_type, "application/zip");
    let mut nameless = facts("/a/x", None);
    nameless.name = None;
    assert_eq!(inspect_attachment_path(&nameless), Err(CommandError::NamelessFile));
    nameless.name = Some(String::new());
    assert_eq!(inspect_attachment_path(&nameless), Err(CommandError::NamelessFile));
}

#[test]
fn a_file_is_attached_once() {
    let files = [facts("/a/x.md", None), facts("/a/y.md", None), facts("/a/x.md", None)];
    let found = inspect_attachment_paths(&files, 3).unwrap();
    assert_eq!(found.len(), 2);
    assert_eq!(found[1].path, "/a/y.md");
    assert_eq!(inspect_attachment_paths(&files, 2), Err(CommandError::TooManyFiles));
}

#[test]
fn the_kind_of_content_goes_by_the_extension() {
    assert_eq!(attachment_media_type("/a/b.JPEG"), "image/jpeg");
    assert_eq!(attachment_media_type("/a/b.svg"), "image/svg+xml");
    assert_eq!(attachment_media_type("/a/b.tar.mjs"), "text/javascript");
    assert_eq!(attachment_media_type("/a/.png"), "application/octet-stream");
    assert_eq!(attachment_media_type("/a/b"), "application/octet-stream");
}

#[test]
fn copies_are_named_after_their_note() {
    assert_eq!(
        stored_attachment_path("/data", 7, 0, "/a/Photo.J-PG", 99),
        "/data/7-99-0.jpg"
    );
    assert_eq!(stored_attachment_path("/data", 7, 12, "/a/plain", 99), "/data/7-99-12");
    assert_eq!(stored_attachment_path("/data/", 7, 12, "/a/plain", 99), "/data/7-99-12");
    assert_eq!(stored_attachment_path("", 7, 12, "/a/plain", 99), "7-99-12");
}

#[test]
fn notes_and_names_are_trimmed_and_bounded() {
    assert_eq!(item_content("  text \n").unwrap(), "text");
    assert_eq!(item_content(" \n "), Err(CommandError::EmptyNote));
    assert_eq!(item_content(&"é".repeat(100_000)).unwrap().chars().count(), 100_000);
    assert_eq!(item_content(&"é".repeat(100_001)), Err(CommandError::LongNote));
    assert_eq!(section_name(" Home ").unwrap(), "Home");
    assert_eq!(section_name("  "), Err(CommandError::EmptyName));
    assert_eq!(section_name(&"x".repeat(81)), Err(CommandError::LongName));
    assert_eq!(section_name("a\nb"), Err(CommandError::BrokenName));
    assert_eq!(section_name("a\rb"), Err(CommandError::BrokenName));
}

#[test]
fn identifiers_are_sorted_and_taken_once() {
    assert_eq!(item_ids(vec![3, 1, 3, 2], 4), Ok(vec![1, 2, 3]));
    assert_eq!(item_ids(vec![], 0), Ok(vec![]));
    assert_eq!(item_ids(vec![1, 2], 1), Err(CommandError::TooManyItems));
    assert_eq!(item_ids(vec![1, 0], 9), Err(CommandError::InvalidItem));
}

#[test]
fn an_entry_opens_a_list_or_adds_a_note() {
    let mut book = notebook();
    assert_eq!(book.add_entry("## home", &[], 5, "/data", 50), Ok(Entry::Opened(2)));
    assert_eq!(book.active_section, Some(2));
    assert_eq!(book.add_entry("# Later", &[], 5, "/data", 50), Ok(Entry::Opened(3)));
    assert_eq!(book.sections[2], ListRow { id: 3, name: "Later".into(), created_at: 50 });
    assert_eq!(
        book.add_entry("## Home", &[facts("/a/x.md", None)], 5, "/data", 50),
        Err(CommandError::FilesOnList)
    );
    let added = book.add_entry(" buy milk ", &[facts("/a/x.md", None)], 5, "/data", 60).unwrap();
    assert_eq!(
        added,
        Entry::Added(
            4,
            vec![FileCopy { source: "/a/x.md".into(), target: "/data/4-60-0.md".into() }]
        )
    );
    assert_eq!(
        book.items[3],
        NoteRow {
            id: 4,
            section_id: Some(3),
            content: "buy milk".into(),
            done: false,
            created_at: 60,
            updated_at: 60
        }
    );
    assert_eq!(book.attachments[2].id, 3);
    assert_eq!(book.attachments[2].item_id, 4);
    assert_eq!(book.attachments[2].stored_path, "/data/4-60-0.md");
    assert_eq!(book.attachments[2].media_type, "text/markdown");
}

#[test]
fn there_is_an_end_to_identifiers() {
    let mut book = notebook();
    book.items[2].id = i64::MAX;
    let before = book.clone();
    assert_eq!(book.add_entry("text", &[], 5, "/data", 1), Err(CommandError::Full));
    assert_eq!(book, before);
}

#[test]
fn ticking_off_changes_only_the_named_notes() {
    let mut book = notebook();
    book.set_items_done(vec![3, 9], true, 10, 77).unwrap();
    assert!(book.items[2].done);
    assert_eq!(book.items[2].updated_at, 77);
    assert_eq!(book.items[0], note(1, None, "one", false));
    assert_eq!(
        book.set_items_done(vec![-1], true, 10, 77),
        Err(CommandError::InvalidItem)
    );
}

#[test]
fn a_note_that_is_gone_is_not_updated() {
    let mut book = notebook();
    assert_eq!(book.update_item(9, "text", 5), Err(CommandError::MissingNote));
    book.update_item(1, " text ", 5).unwrap();
    assert_eq!(book.items[0].content, "text");
    assert_eq!(book.items[0].updated_at, 5);
}

#[test]
fn deleting_notes_frees_their_files() {
    let mut book = notebook();
    assert_eq!(book.delete_items(vec![2, 3], 10), Ok(vec!["/kept/2.txt".into(), "/kept/3.txt".into()]));
    assert_eq!(book.items.len(), 1);
    assert!(book.attachments.is_empty());
}

#[test]
fn clearing_takes_what_is_done() {
    let mut book = notebook();
    assert_eq!(book.clear_completed(), vec!["/kept/2.txt".to_string()]);
    assert_eq!(book.items.len(), 2);
    assert_eq!(book.attachments.len(), 1);
}

#[test]
fn clearing_follows_the_scope_that_is_open() {
    let mut book = notebook();
    book.items.push(note(4, Some(2), "four", true));
    book.items.push(note(5, None, "five", true));
    let left = |book: &Notebook| book.items.iter().map(|row| row.id).collect::<Vec<_>>();
    let mut inbox = book.clone();
    inbox.active_section = None;
    assert!(inbox.clear_completed().is_empty());
    assert_eq!(left(&inbox), [1, 2, 3, 4]);
    let mut all = book.clone();
    assert_eq!(all.clear_scope(Scope::All), vec!["/kept/2.txt".to_string()]);
    assert_eq!(left(&all), [1, 3]);
    assert_eq!(book.clear_completed(), vec!["/kept/2.txt".to_string()]);
    assert_eq!(left(&book), [1, 3, 4, 5]);
}

#[test]
fn merging_joins_the_contents_and_keeps_the_files() {
    let mut book = notebook();
    book.merge_items(vec![3, 2], 10, 90).unwrap();
    assert_eq!(book.items.len(), 2);
    assert_eq!(book.items[1].id, 2);
    assert_eq!(book.items[1].content, "two\n\nthree");
    assert!(!book.items[1].done);
    assert!(book.attachments.iter().all(|file| file.item_id == 2));
    assert_eq!(book.attachments.len(), 2);
    assert_eq!(book.merge_items(vec![2, 2], 10, 90), Err(CommandError::TooFewItems));
    assert_eq!(book.merge_items(vec![2, 8], 10, 90), Err(CommandError::MissingNote));
    book.items[0].content = "x".repeat(99_999);
    let before = book.clone();
    assert_eq!(book.merge_items(vec![1, 2], 10, 90), Err(CommandError::LongMerge));
    assert_eq!(book, before);
}

#[test]
fn moving_is_all_or_nothing() {
    let mut book = notebook();
    let before = book.clone();
    assert_eq!(book.move_items(vec![1, 9], Some(2), 10, 5), Err(CommandError::MissingNote));
    assert_eq!(book.move_items(vec![1], Some(9), 10, 5), Err(CommandError::MissingList));
    assert_eq!(book, before);
    book.move_items(vec![2, 1], Some(2), 10, 5).unwrap();
    assert_eq!(book.items[0].section_id, Some(2));
    assert_eq!(book.items[1].section_id, Some(2));
    book.move_items(vec![1], None, 10, 6).unwrap();
    assert_eq!(book.items[0].section_id, None);
    assert_eq!(book.move_items(vec![], Some(9), 10, 5), Ok(()));
}

#[test]
fn lists_are_renamed_unless_the_name_is_taken() {
    let mut book = notebook();
    assert_eq!(book.rename_section(1, "HOME"), Err(CommandError::NameTaken));
    book.rename_section(1, "work").unwrap();
    assert_eq!(book.sections[0].name, "work");
    assert_eq!(book.create_section("WORK", 5), Ok(1));
    assert_eq!(book.sections.len(), 2);
}

#[test]
fn deleting_a_list_moves_or_deletes_its_notes() {
    let mut book = notebook();
    assert_eq!(book.delete_section(0, false), Err(CommandError::InvalidList));
    assert_eq!(book.delete_section(9, false), Err(CommandError::MissingList));
    assert_eq!(book.delete_section(1, false), Ok(vec![]));
    assert_eq!(book.active_section, None);
    assert!(book.items.iter().all(|item| item.section_id.is_none()));
    assert_eq!(book.items[1].updated_at, 2);

    let mut book = notebook();
    assert_eq!(
        book.delete_section(1, true),
        Ok(vec!["/kept/2.txt".into(), "/kept/3.txt".into()])
    );
    assert_eq!(book.items, vec![note(1, None, "one", false)]);
    assert!(book.attachments.is_empty());
}

#[test]
fn only_lists_that_are_there_are_opened() {
    let mut book = notebook();
    assert_eq!(book.set_active_section(Some(9)), Err(CommandError::MissingList));
    book.set_active_section(Some(2)).unwrap();
    assert_eq!(book.active_section, Some(2));
    book.set_active_section(None).unwrap();
    assert_eq!(book.active_section, None);
}

#[test]
fn captured_text_is_taken_as_it_is() {
    let mut book = notebook();
    assert_eq!(book.add_text_item(" \n\t", 5), Ok(Captured::Empty));
    assert_eq!(
        book.add_text_item(&"x".repeat(100_001), 5),
        Err(CommandError::LongNote)
    );
    assert_eq!(book.add_text_item("  kept  ", 5), Ok(Captured::Added(4)));
    assert_eq!(book.items[3].content, "  kept  ");
    assert_eq!(book.items[3].section_id, Some(1));
}

#[test]
fn a_text_is_captured_once_in_a_moment() {
    let mut book = notebook();
    assert_eq!(book.add_text_item("again", 5_000), Ok(Captured::Added(4)));
    assert_eq!(book.add_text_item("again", 6_500), Ok(Captured::Duplicate));
    assert_eq!(book.add_text_item("again ", 6_500), Ok(Captured::Added(5)));
    assert_eq!(book.add_text_item("again", 6_500), Ok(Captured::Duplicate));
    book.set_active_section(None).unwrap();
    assert_eq!(book.add_text_item("again", 6_500), Ok(Captured::Added(6)));
    book.set_active_section(Some(1)).unwrap();
    assert_eq!(book.add_text_item("again", 6_501), Ok(Captured::Added(7)));
    assert_eq!(book.items.len(), 7);
}

#[test]
fn the_notebook_is_written_as_markdown() {
    let state = AppState {
        sections: vec![list(1, "Work"), list(2, "Empty")],
        items: vec![
            ShownItem {
                section_id: Some(1),
                content: "first\nsecond".into(),
                done: true,
                attachments: vec!["/kept/a.txt".into()],
            },
            ShownItem { section_id: None, content: "loose".into(), done: false, attachments: vec![] },
        ],
    };
    assert_eq!(
        export_markdown(&state),
        "# Clippy export\n\n- [ ] loose\n\n## Work\n\n- [x] first\n  second\n  - Attachment: /kept/a.txt\n\n## Empty\n\n\n"
    );
    let nothing = AppState { sections: vec![], items: vec![] };
    assert_eq!(export_markdown(&nothing), "# Clippy export\n\n");
}

#[test]
fn exports_are_numbered() {
    assert_eq!(export_name(0).unwrap(), "clippy-export.md");
    assert_eq!(export_name(9_999).unwrap(), "clippy-export-9999.md");
    assert_eq!(export_name(10_000), None);
}

#[test]
fn copied_text_lists_its_files() {
    assert_eq!(copy_text("x", &[], 2).unwrap(), "x");
    assert_eq!(
        copy_text("x", &["/a".into(), "/b".into()], 2).unwrap(),
        "x\n\nAttachments:\n- /a\n- /b"
    );
    assert_eq!(
        copy_text("x", &["/a".into(), "/b".into()], 1),
        Err(CommandError::TooManyFiles)
    );
}

#[test]
fn pasted_images_must_be_whole_and_small() {
    assert_eq!(check_pasted_image(2, 3, 24), Ok(()));
    assert_eq!(check_pasted_image(2, 3, 23), Err(CommandError::LargeImage));
    assert_eq!(check_pasted_image(0, 3, 0), Err(CommandError::LargeImage));
    assert_eq!(check_pasted_image(4096, 4096, 67_108_864), Ok(()));
    assert_eq!(check_pasted_image(4096, 4097, 67_125_248), Err(CommandError::LargeImage));
    assert_eq!(check_pasted_image(usize::MAX, 2, 8), Err(CommandError::LargeImage));
}

#[test]
fn themes_and_shortcuts_are_checked() {
    assert_eq!(check_theme("glass"), Ok(()));
    assert_eq!(check_theme("Glass"), Err(CommandError::UnknownTheme));
    assert_eq!(plan_shortcuts("A", "B", " A ", "B"), ShortcutPlan::Keep);
    assert_eq!(
        plan_shortcuts("A", "B", "A", " C"),
        ShortcutPlan::Replace { show: "A".into(), capture: "C".into() }
    );
}

#[test]
fn two_quick_taps_of_a_shift_key_are_a_double_tap() {
    let ms = 1_000_000;
    let mut taps = TapState::new();
    taps.press(Side::Left, 0);
    assert!(!taps.release(Side::Left, 100 * ms));
    taps.press(Side::Left, 200 * ms);
    assert!(taps.release(Side::Left, 300 * ms));
    taps.press(Side::Left, 350 * ms);
    assert!(!taps.release(Side::Left, 400 * ms));
    assert_eq!(tap_action(Side::Left), TapAction::CaptureSelection);
    assert_eq!(tap_action(Side::Right), TapAction::TogglePanel);
}

#[test]
fn other_keys_and_long_holds_break_a_double_tap() {
    let ms = 1_000_000;
    let mut taps = TapState::new();
    taps.press(Side::Right, 0);
    assert!(!taps.release(Side::Right, 10 * ms));
    taps.other_key();
    taps.press(Side::Right, 20 * ms);
    assert!(!taps.release(Side::Right, 30 * ms));
    taps.press(Side::Right, 40 * ms);
    assert!(!taps.release(Side::Right, 540 * ms));
    taps.press(Side::Left, 550 * ms);
    assert!(!taps.release(Side::Left, 560 * ms));
    taps.press(Side::Right, 570 * ms);
    assert!(!taps.release(Side::Right, 580 * ms));
    taps.press(Side::Right, 900 * ms);
    assert!(!taps.release(Side::Right, 980 * ms));
}

#[test]
fn a_listener_that_hears_only_changes_finds_double_taps_too() {
    let ms = 1_000_000;
    let mut listener = ListenerState::new();
    assert!(!listener.shift_changed(Side::Right, 0));
    assert!(!listener.shift_changed(Side::Right, 50 * ms));
    assert!(!listener.shift_changed(Side::Right, 100 * ms));
    assert!(listener.shift_changed(Side::Right, 150 * ms));
    assert!(!listener.shift_changed(Side::Left, 200 * ms));
    assert!(!listener.shift_changed(Side::Right, 210 * ms));
    assert!(!listener.shift_changed(Side::Left, 220 * ms));
    assert!(!listener.shift_changed(Side::Right, 230 * ms));
    assert_eq!(listener, ListenerState { taps: TapState { dirty: true, ..TapState::new() }, ..ListenerState::new() });
}

#[test]
fn the_waits_for_a_copy_double_up_to_a_bound() {
    let mut poll = CopyPoll::new();
    let waits: Vec<_> = (0..5).map(|round| poll.next(round * 100)).collect();
    assert_eq!(waits, vec![Some(5), Some(10), Some(20), Some(25), Some(25)]);
    assert_eq!(poll.next(450), None);
}

#[test]
fn selections_are_taken_or_answered() {
    assert_eq!(
        selection_action(Selection::Text("x".into())),
        SelectionAction::Take("x".into())
    );
    assert_eq!(selection_action(Selection::Empty), SelectionAction::ReportEmpty);
    assert_eq!(selection_action(Selection::Protected), SelectionAction::RefuseProtected);
    assert_eq!(selection_action(Selection::PermissionDenied), SelectionAction::AskPermission);
    assert_eq!(selection_action(Selection::Unsupported), SelectionAction::CopyInstead);
}

#[test]
fn the_panel_stands_at_the_right_edge() {
    let place = Placement {
        x: -100,
        y: 20,
        width: 1000,
        height: 801,
        window_width: 300,
        window_height: 600,
    };
    assert_eq!(dock_position(place, 16), (584, 120));
    assert_eq!(
        dock_position(Placement { window_height: 1000, ..place }, 16),
        (584, 36)
    );
    assert_eq!(feedback_position(place, 24), (250, 44));
    assert_eq!(
        feedback_position(Placement { window_width: 1003, ..place }, 24),
        (-101, 44)
    );
}
