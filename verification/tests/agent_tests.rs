use clippy_sync::agent::{
    add_todo, companion_command, companion_ready, create_list, does_mention, is_refresh,
    list_lists, read_list, resolve_list, search, set_done, update_todo, AddTodoRequest,
    CompanionCommand, CreateListRequest, FileInfo, ListItemsRequest, ListRef, ListSummary,
    SearchRequest, SetDoneRequest, UpdateTodoRequest,
};
use clippy_sync::companion::{
    check_policy_size, parse_bool, parse_count, parse_identifier, CompanionError, ConfigureFault,
    Policy, WriteMode,
};
use clippy_sync::notebook::{ListRow, NoteFile, NoteRow, Notebook};

fn note(id: i64, list: Option<i64>, content: &str, done: bool, updated_at: i64) -> NoteRow {
    NoteRow { id, section_id: list, content: content.into(), done, created_at: 1, updated_at }
}

fn fixture() -> Notebook {
    Notebook {
        sections: vec![ListRow { id: 1, name: "Work".into(), created_at: 1 }],
        items: vec![],
        attachments: vec![],
        active_section: None,
    }
}

fn items_of(list_id: Option<i64>) -> ListItemsRequest {
    ListItemsRequest {
        list_id,
        list_name: None,
        query: None,
        include_completed: None,
        limit: None,
    }
}

fn search_for(query: &str) -> SearchRequest {
    SearchRequest {
        query: query.into(),
        list_id: None,
        list_name: None,
        include_completed: None,
        limit: None,
    }
}

fn words(text: &str) -> Vec<String> {
    text.split(' ').map(str::to_string).collect()
}

#[test]
fn default_policy_is_read_only_and_bounded() {
    let policy = Policy::default();
    assert_eq!(policy.write_mode, WriteMode::ReadOnly);
    assert_eq!(policy.result_limit(Some(500)), 50);
    assert!(!policy.include_attachment_metadata);
}

#[test]
fn policy_rejects_duplicate_allowlist_ids() {
    let policy = Policy { allowed_list_ids: vec![1, 1], ..Policy::default() };
    assert!(policy.validate().is_err());
}

#[test]
fn todo_write_requires_policy_and_uses_existing_list() {
    let mut book = fixture();
    let request = AddTodoRequest {
        content: "Ship the MCP companion".into(),
        list_id: Some(1),
        list_name: None,
    };
    assert!(add_todo(&Policy::default(), &mut book, &request, 9).is_err());
    let policy = Policy { write_mode: WriteMode::TodosOnly, ..Policy::default() };
    let todo = add_todo(&policy, &mut book, &request, 9).unwrap();
    assert_eq!(todo.list.name, "Work");
    assert_eq!(todo.content, "Ship the MCP companion");
    assert_eq!(todo.id, 1);
    assert_eq!(
        book.items,
        vec![NoteRow { created_at: 9, ..note(1, Some(1), "Ship the MCP companion", false, 9) }]
    );
}

#[test]
fn read_policy_hides_completed_and_attachment_paths() {
    let mut book = fixture();
    book.items = vec![note(1, Some(1), "Open", false, 1), note(2, Some(1), "Done", true, 2)];
    book.attachments = vec![NoteFile {
        id: 1,
        item_id: 1,
        name: "secret.txt".into(),
        stored_path: "/private/secret.txt".into(),
        media_type: "text/plain".into(),
        size: 12,
        created_at: 1,
    }];
    let request = ListItemsRequest { include_completed: Some(true), ..items_of(Some(1)) };
    let result = read_list(&Policy::default(), &book, &request).unwrap();
    assert_eq!(result.items.len(), 1);
    assert_eq!(result.items[0].attachments, vec![]);
    assert!(!format!("{result:?}").contains("/private/secret.txt"));

    let open = Policy {
        include_completed: true,
        include_attachment_metadata: true,
        ..Policy::default()
    };
    let result = read_list(&open, &book, &request).unwrap();
    assert_eq!(result.items.len(), 2);
    assert_eq!(result.items[0].note.content, "Done");
    assert_eq!(
        result.items[1].attachments,
        vec![FileInfo {
            id: 1,
            name: "secret.txt".into(),
            media_type: "text/plain".into(),
            size: 12
        }]
    );
    assert!(!format!("{result:?}").contains("/private/secret.txt"));
}

#[test]
fn policies_that_are_out_of_bounds_are_refused() {
    let with = |max_results| Policy { max_results, ..Policy::default() };
    assert_eq!(with(0).validate(), Err(CompanionError::MaxResults));
    assert_eq!(with(201).validate(), Err(CompanionError::MaxResults));
    assert_eq!(with(200).validate(), Ok(()));
    assert_eq!(with(200).result_limit(None), 200);
    assert_eq!(with(200).result_limit(Some(0)), 1);
    let allowing = |ids| Policy { allowed_list_ids: ids, ..Policy::default() };
    assert_eq!(allowing(vec![0]).validate(), Err(CompanionError::ListIds));
    assert_eq!(allowing((1..130).collect()).validate(), Err(CompanionError::ListIds));
    assert_eq!(allowing((1..129).collect()).validate(), Ok(()));
    let naming = |name: &str| Policy { default_list: Some(name.into()), ..Policy::default() };
    assert_eq!(naming(" ").validate(), Err(CompanionError::ListNameLength));
    assert_eq!(naming(&"x".repeat(81)).validate(), Err(CompanionError::ListNameLength));
    assert_eq!(naming("a\nb").validate(), Err(CompanionError::ListNameLines));
    assert_eq!(check_policy_size(65_536), Ok(()));
    assert_eq!(check_policy_size(65_537), Err(CompanionError::LargePolicy));
}

#[test]
fn options_change_a_policy() {
    let policy = Policy::default()
        .configure(&words(
            "--write-mode manage-lists --read-enabled no --allow-inbox false --include-completed 1 \
             --include-attachment-metadata yes --max-results +7 --allow-list-ids 3,-0004,+5",
        ))
        .unwrap_err();
    assert_eq!(policy, ConfigureFault { at: 14, error: CompanionError::ListIds });
    let policy = Policy::default()
        .configure(&[
            "--allow-list-ids".into(),
            " 3 , 005".into(),
            "--default-list".into(),
            " Work ".into(),
            "--max-results".into(),
            "7".into(),
            "--write-mode".into(),
            "todos_only".into(),
        ])
        .unwrap();
    assert_eq!(policy.allowed_list_ids, vec![3, 5]);
    assert_eq!(policy.default_list.as_deref(), Some("Work"));
    assert_eq!(policy.max_results, 7);
    assert_eq!(policy.write_mode, WriteMode::TodosOnly);
    let policy = policy.configure(&words("--allow-list-ids ALL --default-list None")).unwrap();
    assert!(policy.allowed_list_ids.is_empty());
    assert_eq!(policy.default_list, None);
}

#[test]
fn options_that_are_not_understood_are_told() {
    let fault = |text: &str| Policy::default().configure(&words(text)).unwrap_err();
    assert_eq!(fault("--allow-inbox"), ConfigureFault { at: 1, error: CompanionError::MissingValue });
    assert_eq!(
        fault("--allow-inbox true --colour red").error,
        CompanionError::UnknownOption
    );
    assert_eq!(fault("--allow-inbox true --colour red").at, 2);
    assert_eq!(fault("--write-mode all").error, CompanionError::UnknownWriteMode);
    assert_eq!(fault("--allow-inbox maybe").error, CompanionError::NotBoolean);
    assert_eq!(fault("--allow-list-ids 1,x").error, CompanionError::NotIds);
    assert_eq!(fault("--max-results -1").error, CompanionError::NotInteger);
    assert_eq!(fault("--max-results 65536").error, CompanionError::NotInteger);
    assert_eq!(fault("--max-results 0").error, CompanionError::MaxResults);
}

#[test]
fn numbers_are_read_in_decimal() {
    assert_eq!(parse_identifier("9223372036854775807"), Some(i64::MAX));
    assert_eq!(parse_identifier("9223372036854775808"), None);
    assert_eq!(parse_identifier("-9223372036854775808"), Some(i64::MIN));
    assert_eq!(parse_identifier("-9223372036854775809"), None);
    assert_eq!(parse_identifier("000000000000000000000000000001"), Some(1));
    assert_eq!(parse_identifier("+"), None);
    assert_eq!(parse_identifier(""), None);
    assert_eq!(parse_identifier("1 "), None);
    assert_eq!(parse_count("65535"), Some(65535));
    assert_eq!(parse_count("-0"), None);
    assert_eq!(parse_bool("1"), Ok(true));
    assert_eq!(parse_bool("no"), Ok(false));
    assert_eq!(parse_bool("True"), Err(CompanionError::NotBoolean));
}

#[test]
fn lists_are_found_by_name_identifier_or_default() {
    let mut book = fixture();
    book.sections.push(ListRow { id: 2, name: "Home".into(), created_at: 1 });
    let policy = Policy::default();
    let by = |policy: &Policy, book: &Notebook, id, name: Option<&str>, default| {
        resolve_list(book, policy, id, &name.map(str::to_string), default)
    };
    let work = ListRef { id: Some(1), name: "Work".into() };
    let inbox = ListRef { id: None, name: "Inbox".into() };
    assert_eq!(by(&policy, &book, Some(1), None, false), Ok(work.clone()));
    assert_eq!(by(&policy, &book, None, Some(" wORK "), false), Ok(work.clone()));
    assert_eq!(by(&policy, &book, None, Some("INBOX"), false), Ok(inbox.clone()));
    assert_eq!(by(&policy, &book, None, None, true), Ok(inbox));
    assert_eq!(by(&policy, &book, Some(1), Some("Work"), true), Err(CompanionError::BothGiven));
    assert_eq!(by(&policy, &book, Some(0), None, true), Err(CompanionError::InvalidListId));
    assert_eq!(by(&policy, &book, Some(9), None, true), Err(CompanionError::ListGone));
    assert_eq!(by(&policy, &book, None, Some("Nowhere"), true), Err(CompanionError::NoSuchList));
    assert_eq!(by(&policy, &book, None, None, false), Err(CompanionError::ListRequired));
    book.active_section = Some(1);
    assert_eq!(by(&policy, &book, None, None, true), Ok(work));
    let restricted = Policy {
        allowed_list_ids: vec![2],
        allow_inbox: false,
        default_list: Some("home".into()),
        ..Policy::default()
    };
    assert_eq!(by(&restricted, &book, None, None, true).unwrap().id, Some(2));
    assert_eq!(by(&restricted, &book, Some(1), None, true), Err(CompanionError::ListNotPermitted));
    assert_eq!(
        by(&restricted, &book, None, Some("Inbox"), true),
        Err(CompanionError::ListNotPermitted)
    );
}

#[test]
fn lists_are_counted() {
    let mut book = fixture();
    book.items = vec![
        note(1, Some(1), "a", false, 1),
        note(2, Some(1), "b", true, 1),
        note(3, None, "c", true, 1),
    ];
    let told = list_lists(&Policy::default(), &book).unwrap();
    assert_eq!(told.len(), 2);
    assert_eq!((told[0].open_count, told[0].completed_count), (0, None));
    let open = Policy { include_completed: true, allow_inbox: false, ..Policy::default() };
    assert_eq!(
        list_lists(&open, &book).unwrap(),
        vec![ListSummary {
            list: ListRef { id: Some(1), name: "Work".into() },
            open_count: 1,
            completed_count: Some(1)
        }]
    );
    let closed = Policy { read_enabled: false, ..Policy::default() };
    assert_eq!(list_lists(&closed, &book), Err(CompanionError::ReadsDisabled));
    assert_eq!(read_list(&closed, &book, &items_of(None)), Err(CompanionError::ReadsDisabled));
    assert_eq!(search(&closed, &book, &search_for("a")), Err(CompanionError::ReadsDisabled));
}

#[test]
fn the_newest_notes_come_first() {
    let mut book = fixture();
    book.items = vec![
        note(1, Some(1), "Alpha", false, 5),
        note(2, Some(1), "beta ALPHA", false, 9),
        note(3, Some(1), "alpha gamma", false, 5),
        note(4, None, "alphabet", false, 7),
    ];
    let policy = Policy { max_results: 2, ..Policy::default() };
    let ids = |found: Vec<i64>| found;
    let read = read_list(&policy, &book, &items_of(Some(1))).unwrap();
    assert_eq!(ids(read.items.iter().map(|item| item.note.id).collect()), vec![2, 3]);
    let found = search(&policy, &book, &search_for("  AlPhA ")).unwrap();
    assert_eq!(found.query, "AlPhA");
    assert_eq!(ids(found.items.iter().map(|item| item.note.id).collect()), vec![2, 4]);
    assert_eq!(found.items[1].list, ListRef { id: None, name: "Inbox".into() });
    let without_inbox = Policy { allow_inbox: false, ..policy };
    let found = search(&without_inbox, &book, &search_for("alpha")).unwrap();
    assert_eq!(ids(found.items.iter().map(|item| item.note.id).collect()), vec![2, 3]);
    let narrowed = ListItemsRequest { query: Some("GAMMA".into()), ..items_of(Some(1)) };
    assert_eq!(read_list(&without_inbox, &book, &narrowed).unwrap().items.len(), 1);
    let scoped = SearchRequest { list_name: Some("work".into()), ..search_for("alpha") };
    assert_eq!(search(&without_inbox, &book, &scoped).unwrap().items.len(), 2);
}

#[test]
fn searches_need_a_short_phrase() {
    let book = fixture();
    let policy = Policy::default();
    assert_eq!(search(&policy, &book, &search_for("  ")), Err(CompanionError::EmptyQuery));
    assert_eq!(
        search(&policy, &book, &search_for(&"x".repeat(501))),
        Err(CompanionError::LongQuery)
    );
    let both = SearchRequest {
        list_id: Some(1),
        list_name: Some("Work".into()),
        ..search_for("x")
    };
    assert_eq!(search(&policy, &book, &both), Err(CompanionError::BothGiven));
    assert!(does_mention("straße ABC", "abc"));
    assert!(!does_mention("ab", "abc"));
}

#[test]
fn todos_are_changed_within_the_policy() {
    let mut book = fixture();
    book.sections.push(ListRow { id: 2, name: "Home".into(), created_at: 1 });
    book.items = vec![note(1, Some(1), "a", false, 1), note(2, None, "b", false, 1)];
    let policy = Policy {
        write_mode: WriteMode::TodosOnly,
        allow_inbox: false,
        ..Policy::default()
    };
    let update = |item_id, content: &str, list_id| UpdateTodoRequest {
        item_id,
        content: content.into(),
        list_id,
        list_name: None,
    };
    let before = book.clone();
    let read_only = Policy::default();
    assert_eq!(
        update_todo(&read_only, &mut book, &update(1, "x", None), 5),
        Err(CompanionError::ReadOnly)
    );
    assert_eq!(
        update_todo(&policy, &mut book, &update(0, "x", None), 5),
        Err(CompanionError::InvalidItemId)
    );
    assert_eq!(
        update_todo(&policy, &mut book, &update(1, " ", None), 5),
        Err(CompanionError::EmptyContent)
    );
    assert_eq!(
        update_todo(&policy, &mut book, &update(1, &"x".repeat(100_001), None), 5),
        Err(CompanionError::LongContent)
    );
    assert_eq!(
        update_todo(&policy, &mut book, &update(9, "x", None), 5),
        Err(CompanionError::ItemGone)
    );
    assert_eq!(
        update_todo(&policy, &mut book, &update(2, "x", None), 5),
        Err(CompanionError::ItemNotPermitted)
    );
    assert_eq!(
        set_done(&policy, &mut book, &SetDoneRequest { item_id: 2, done: true }, 5),
        Err(CompanionError::ItemNotPermitted)
    );
    assert_eq!(
        set_done(&policy, &mut book, &SetDoneRequest { item_id: -1, done: true }, 5),
        Err(CompanionError::InvalidItemId)
    );
    assert_eq!(book, before);
    let moved = update_todo(&policy, &mut book, &update(1, " new ", Some(2)), 5).unwrap();
    assert_eq!(moved.list.name, "Home");
    assert_eq!(book.items[0], note(1, Some(2), "new", false, 5));
    set_done(&policy, &mut book, &SetDoneRequest { item_id: 1, done: true }, 6).unwrap();
    assert_eq!(book.items[0], note(1, Some(2), "new", true, 6));
}

#[test]
fn lists_are_made_only_where_the_policy_says_so() {
    let mut book = fixture();
    let request = |name: &str| CreateListRequest { name: name.into() };
    let todos = Policy { write_mode: WriteMode::TodosOnly, ..Policy::default() };
    assert_eq!(
        create_list(&todos, &mut book, &request("New"), 5),
        Err(CompanionError::CreationNotPermitted)
    );
    let manage = Policy { write_mode: WriteMode::ManageLists, ..Policy::default() };
    let restricted = Policy { allowed_list_ids: vec![1], ..manage.clone() };
    assert_eq!(
        create_list(&restricted, &mut book, &request("New"), 5),
        Err(CompanionError::CreationRestricted)
    );
    assert_eq!(
        create_list(&manage, &mut book, &request("WORK"), 5),
        Err(CompanionError::NameTaken)
    );
    assert_eq!(
        create_list(&manage, &mut book, &request(" New "), 5),
        Ok(ListRef { id: Some(2), name: "New".into() })
    );
    assert_eq!(book.sections[1], ListRow { id: 2, name: "New".into(), created_at: 5 });
    book.sections[1].id = i64::MAX;
    assert_eq!(create_list(&manage, &mut book, &request("More"), 5), Err(CompanionError::Full));
}

#[test]
fn the_command_line_of_the_companion_is_understood() {
    let meant = |text: &str| companion_command(&words(text));
    assert_eq!(companion_command(&[]), CompanionCommand::Serve);
    assert_eq!(meant("serve"), CompanionCommand::Serve);
    assert_eq!(meant("serve now"), CompanionCommand::Unknown);
    assert_eq!(meant("show-policy"), CompanionCommand::ShowPolicy);
    assert_eq!(meant("configure --max-results 3"), CompanionCommand::Configure);
    assert_eq!(meant("doctor"), CompanionCommand::Doctor);
    assert_eq!(meant("install-codex"), CompanionCommand::Install);
    assert_eq!(meant("-h anything"), CompanionCommand::Help);
    assert!(is_refresh(b"refresh"));
    assert!(!is_refresh(b"refresh!"));
    assert!(companion_ready(true, "x\ncodex_mcp: configured\ncompanion_skill: installed\n"));
    assert!(!companion_ready(true, "codex_mcp: configured"));
    assert!(!companion_ready(false, "codex_mcp: configured companion_skill: installed"));
}
