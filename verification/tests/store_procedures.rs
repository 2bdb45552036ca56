use task_tracker::store::{
    create_task, delete_task, empty_store, find_array_body, find_lowest_available_id,
    get_file_items, list_tasks, normalize, parse_entries, read_fragments, read_task,
    render_entries, update_task, write_task, Entry,
};
use task_tracker::task::Task;
use task_tracker::text::{chars_of, string_of};

fn task(id: u64, description: &str, status: &str, created_at: u64, updated_at: u64) -> Task {
    Task {
        id,
        description: description.to_string(),
        status: status.to_string(),
        created_at,
        updated_at,
    }
}

fn store_with_ids(ids: &[u64]) -> String {
    let mut contents = empty_store();
    for id in ids {
        contents = write_task(&contents, Task::new(*id, "t".to_string(), 1));
    }
    contents
}

#[test]
fn empty_store_is_an_empty_array_and_a_newline() {
    assert_eq!(empty_store(), "[]\n");
    assert_eq!(list_tasks(&empty_store()), Vec::<Task>::new());
    assert_eq!(find_lowest_available_id(&empty_store()), 0);
}

#[test]
fn scenario_create_update_delete_list() {
    let file = empty_store();
    assert_eq!(file, "[]\n");

    let file = create_task(&file, "buy milk".to_string(), 100);
    assert_eq!(
        file,
        "[{\"id\":0,\"description\":\"buy milk\",\"status\":\"todo\",\"created_at\":100,\"updated_at\":100}]\n"
    );
    assert_eq!(list_tasks(&file).len(), 1);
    assert_eq!(list_tasks(&file)[0].id, 0);
    assert_eq!(list_tasks(&file)[0].status, "todo");

    let file = create_task(&file, "write spec".to_string(), 200);
    assert_eq!(
        file,
        "[{\"id\":0,\"description\":\"buymilk\",\"status\":\"todo\",\"created_at\":100,\"updated_at\":100},{\"id\":1,\"description\":\"write spec\",\"status\":\"todo\",\"created_at\":200,\"updated_at\":200}]\n"
    );
    assert_eq!(list_tasks(&file).len(), 2);
    assert_eq!(list_tasks(&file)[1].id, 1);

    let before = read_task(&file, 0).unwrap();
    let file = update_task(&file, 0, Some("status".to_string()), Some("done".to_string()), 300);
    assert_eq!(
        file,
        "[{\"id\":0,\"description\":\"buymilk\",\"status\":\"done\",\"created_at\":100,\"updated_at\":300},{\"id\":1,\"description\":\"writespec\",\"status\":\"todo\",\"created_at\":200,\"updated_at\":200}]\n"
    );
    let after = read_task(&file, 0).unwrap();
    assert_eq!(after.status, "done");
    assert!(after.updated_at > before.updated_at);

    let file = delete_task(&file, 1);
    assert_eq!(
        file,
        "[{\"id\":0,\"description\":\"buymilk\",\"status\":\"done\",\"created_at\":100,\"updated_at\":300}]\n"
    );

    let tasks = list_tasks(&file);
    assert_eq!(tasks, vec![task(0, "buymilk", "done", 100, 300)]);
}

#[test]
fn next_id_fills_the_first_gap() {
    let file = store_with_ids(&[0, 1, 2, 4]);
    assert_eq!(find_lowest_available_id(&file), 3);
    let file = create_task(&file, "new".to_string(), 9);
    assert_eq!(read_task(&file, 3), Some(task(3, "new", "todo", 9, 9)));
    assert_eq!(list_tasks(&file).last().unwrap().id, 3);
}

#[test]
fn next_id_is_zero_in_an_empty_store() {
    assert_eq!(find_lowest_available_id("[]\n"), 0);
    assert_eq!(find_lowest_available_id(""), 0);
}

#[test]
fn next_id_is_zero_where_zero_is_free() {
    assert_eq!(find_lowest_available_id(&store_with_ids(&[1, 2, 3])), 0);
}

#[test]
fn next_id_follows_the_highest_where_there_is_no_gap() {
    assert_eq!(find_lowest_available_id(&store_with_ids(&[0, 1, 2])), 3);
    assert_eq!(find_lowest_available_id(&store_with_ids(&[2, 0, 1])), 3);
}

#[test]
fn next_id_counts_a_repeated_id_once() {
    assert_eq!(find_lowest_available_id(&store_with_ids(&[0, 0, 1])), 2);
    assert_eq!(find_lowest_available_id(&store_with_ids(&[1, 0, 1, 0, 3, 3])), 2);
}

#[test]
fn next_id_passes_over_opaque_entries() {
    assert_eq!(find_lowest_available_id("[{\"id\":0},{\"id\":1,\"x\":2}]"), 0);
}

#[test]
fn items_of_a_text_without_array_are_none() {
    assert_eq!(get_file_items(""), Vec::<String>::new());
    assert_eq!(get_file_items("no array here"), Vec::<String>::new());
    assert_eq!(get_file_items("only [ opens"), Vec::<String>::new());
    assert_eq!(get_file_items("only ] closes"), Vec::<String>::new());
    assert_eq!(get_file_items("] the wrong way round ["), Vec::<String>::new());
    assert_eq!(get_file_items("[]"), Vec::<String>::new());
}

#[test]
fn items_are_taken_from_between_the_outer_brackets() {
    assert_eq!(
        get_file_items("before [{\"a\":1},{\"b\":2}] after"),
        vec!["{\"a\":1}".to_string(), "{\"b\":2}".to_string()]
    );
    assert_eq!(get_file_items("x[[a]]y"), vec!["a}".to_string()]);
    assert_eq!(get_file_items("[a] and [b]"), vec!["a]and[b}".to_string()]);
}

#[test]
fn items_are_cleared_of_blanks_and_closed() {
    let text = "[\n\t{\"id\": 0, \"description\": \"buy milk\"},\n\t{\"id\": 1}\n]\n";
    assert_eq!(
        get_file_items(text),
        vec![
            "{\"id\":0,\"description\":\"buymilk\"}".to_string(),
            "{\"id\":1}".to_string()
        ]
    );
}

#[test]
fn empty_pieces_give_no_item_but_blank_ones_do() {
    assert_eq!(get_file_items("[},},a},]"), vec!["a}".to_string()]);
    assert_eq!(get_file_items("[ ]"), vec!["}".to_string()]);
    assert_eq!(get_file_items("[a}, ]"), vec!["a}".to_string(), "}".to_string()]);
}

#[test]
fn entries_are_decoded_where_they_hold_a_task() {
    let text = "[{\"note\":\"keep\"},{\"id\":2,\"description\":\"d\",\"status\":\"s\",\"created_at\":3,\"updated_at\":4}]";
    assert_eq!(
        parse_entries(text),
        vec![
            Entry::Opaque("{\"note\":\"keep\"}".to_string()),
            Entry::Decoded(task(2, "d", "s", 3, 4)),
        ]
    );
}

#[test]
fn render_joins_the_entries_in_brackets() {
    let entries = vec![
        Entry::Opaque("{\"note\":\"keep\"}".to_string()),
        Entry::Decoded(task(2, "d", "s", 3, 4)),
        Entry::Opaque("x".to_string()),
    ];
    assert_eq!(
        render_entries(&entries),
        "[{\"note\":\"keep\"},{\"id\":2,\"description\":\"d\",\"status\":\"s\",\"created_at\":3,\"updated_at\":4},x]\n"
    );
    assert_eq!(render_entries(&Vec::new()), "[]\n");
}

#[test]
fn list_gives_the_tasks_in_file_order() {
    let file = store_with_ids(&[5, 0, 3]);
    let ids: Vec<u64> = list_tasks(&file).iter().map(|t| t.id).collect();
    assert_eq!(ids, vec![5, 0, 3]);
}

#[test]
fn list_twice_gives_the_same() {
    let file = "junk [{\"id\":1,\"description\":\"a\",\"status\":\"b\",\"created_at\":1,\"updated_at\":2}, {\"x\":1}] junk";
    let first = list_tasks(file);
    let second = list_tasks(file);
    assert_eq!(first, second);
    assert_eq!(first, vec![task(1, "a", "b", 1, 2)]);
}

#[test]
fn read_gives_the_first_task_with_the_id() {
    let file = "[{\"id\":1,\"description\":\"first\",\"status\":\"a\",\"created_at\":1,\"updated_at\":2},{\"id\":1,\"description\":\"second\",\"status\":\"b\",\"created_at\":3,\"updated_at\":4}]";
    assert_eq!(read_task(file, 1), Some(task(1, "first", "a", 1, 2)));
}

#[test]
fn read_of_an_absent_id_finds_nothing() {
    let file = store_with_ids(&[0, 1]);
    assert_eq!(read_task(&file, 2), None);
    assert_eq!(read_task("", 0), None);
    assert_eq!(read_task("[{\"id\":0}]", 0), None);
}

#[test]
fn write_appends_and_keeps_opaque_entries() {
    let file = "[{\"note\":\"keep\"}]";
    let file = write_task(file, task(4, "d", "s", 1, 2));
    assert_eq!(
        file,
        "[{\"note\":\"keep\"},{\"id\":4,\"description\":\"d\",\"status\":\"s\",\"created_at\":1,\"updated_at\":2}]\n"
    );
}

#[test]
fn write_to_a_text_without_array_starts_a_new_one() {
    let file = write_task("nothing here", task(4, "d", "s", 1, 2));
    assert_eq!(
        file,
        "[{\"id\":4,\"description\":\"d\",\"status\":\"s\",\"created_at\":1,\"updated_at\":2}]\n"
    );
}

#[test]
fn update_changes_only_description_and_time_of_the_task() {
    let file = store_with_ids(&[0, 1, 2]);
    let before = read_task(&file, 1).unwrap();
    let file = update_task(&file, 1, Some("description".to_string()), Some("changed".to_string()), 77);
    let after = read_task(&file, 1).unwrap();
    assert_eq!(after.id, before.id);
    assert_eq!(after.status, before.status);
    assert_eq!(after.created_at, before.created_at);
    assert_eq!(after.description, "changed");
    assert_eq!(after.updated_at, 77);
    assert_eq!(read_task(&file, 0), Some(task(0, "t", "todo", 1, 1)));
    assert_eq!(read_task(&file, 2), Some(task(2, "t", "todo", 1, 1)));
}

#[test]
fn update_changes_every_task_with_the_id() {
    let file = store_with_ids(&[3, 3]);
    let file = update_task(&file, 3, Some("status".to_string()), Some("done".to_string()), 8);
    assert_eq!(
        list_tasks(&file),
        vec![task(3, "t", "done", 1, 8), task(3, "t", "done", 1, 8)]
    );
}

#[test]
fn update_of_an_absent_id_rewrites_the_entries_as_they_are() {
    let file = "[ {\"note\": \"keep\"}, {\"updated_at\":2,\"id\":0,\"description\":\"d\",\"status\":\"s\",\"created_at\":1} ]";
    let file = update_task(file, 9, Some("status".to_string()), Some("done".to_string()), 8);
    assert_eq!(
        file,
        "[{\"note\":\"keep\"},{\"id\":0,\"description\":\"d\",\"status\":\"s\",\"created_at\":1,\"updated_at\":2}]\n"
    );
}

#[test]
fn update_of_an_unknown_field_sets_only_the_time() {
    let file = store_with_ids(&[0]);
    let file = update_task(&file, 0, Some("title".to_string()), Some("x".to_string()), 8);
    assert_eq!(list_tasks(&file), vec![task(0, "t", "todo", 1, 8)]);
    let file = update_task(&file, 0, Some("status".to_string()), None, 9);
    assert_eq!(list_tasks(&file), vec![task(0, "t", "todo", 1, 9)]);
}

#[test]
fn delete_then_read_finds_nothing_and_keeps_the_others() {
    let file = store_with_ids(&[0, 1, 2]);
    let file = delete_task(&file, 1);
    assert_eq!(read_task(&file, 1), None);
    assert_eq!(read_task(&file, 0), Some(task(0, "t", "todo", 1, 1)));
    assert_eq!(read_task(&file, 2), Some(task(2, "t", "todo", 1, 1)));
}

#[test]
fn delete_removes_every_task_with_the_id_and_keeps_opaque_entries() {
    let file = "[{\"id\":1,\"description\":\"a\",\"status\":\"b\",\"created_at\":1,\"updated_at\":2},{\"id\":1},{\"id\":1,\"description\":\"c\",\"status\":\"d\",\"created_at\":3,\"updated_at\":4}]";
    assert_eq!(delete_task(file, 1), "[{\"id\":1}]\n");
}

#[test]
fn delete_of_an_absent_id_keeps_every_entry() {
    let file = store_with_ids(&[0, 1]);
    assert_eq!(delete_task(&file, 5), file);
}

#[test]
fn delete_of_the_only_task_leaves_an_empty_array() {
    let file = store_with_ids(&[0]);
    assert_eq!(delete_task(&file, 0), "[]\n");
}

#[test]
fn an_opaque_entry_may_hold_a_task_after_the_rewrite() {
    let file = "[{\"x\":1} ,{\"id\":3,\"description\":\"d\",\"status\":\"s\",\"created_at\":1,\"updated_at\":2}]";
    assert_eq!(read_task(file, 3), None);
    let file = delete_task(file, 3);
    assert_eq!(read_task(&file, 3), Some(task(3, "d", "s", 1, 2)));
}

#[test]
fn the_array_is_found_between_the_first_opening_and_the_last_closing_bracket() {
    assert_eq!(find_array_body(&chars_of("x [a] y [b] z")), Some(chars_of("a] y [b")));
    assert_eq!(find_array_body(&chars_of("[]")), Some(Vec::new()));
    assert_eq!(find_array_body(&chars_of("[[][]]")), Some(Vec::new()));
    assert_eq!(find_array_body(&chars_of("[ ]")), Some(vec![' ']));
    assert_eq!(find_array_body(&chars_of("")), None);
    assert_eq!(find_array_body(&chars_of("[")), None);
    assert_eq!(find_array_body(&chars_of("]")), None);
    assert_eq!(find_array_body(&chars_of("][")), None);
    assert_eq!(find_array_body(&chars_of("{}")), None);
}

#[test]
fn a_piece_is_cleared_and_closed() {
    assert_eq!(string_of(&normalize(&chars_of(" {\"a\": 1"))), "{\"a\":1}");
    assert_eq!(string_of(&normalize(&chars_of("{\"a\":1}\n"))), "{\"a\":1}");
    assert_eq!(string_of(&normalize(&chars_of("{\"a\":1} "))), "{\"a\":1}");
    assert_eq!(string_of(&normalize(&chars_of("{\"a\":{\"b\":1}"))), "{\"a\":{\"b\":1}");
    assert_eq!(string_of(&normalize(&chars_of(" \t\n"))), "}");
    assert_eq!(string_of(&normalize(&chars_of(""))), "}");
}

#[test]
fn fragments_as_characters_are_the_items() {
    let text = "[ {\"a\": 1}, {\"b\": 2} ]";
    let fragments: Vec<String> = read_fragments(&chars_of(text)).iter().map(string_of).collect();
    assert_eq!(fragments, get_file_items(text));
    assert_eq!(fragments, vec!["{\"a\":1}".to_string(), "{\"b\":2}".to_string()]);
}

#[test]
fn a_store_reads_a_description_without_its_blanks() {
    let file = create_task("[]", "buy  more\tmilk".to_string(), 1);
    assert_eq!(read_task(&file, 0), Some(task(0, "buymoremilk", "todo", 1, 1)));
}

#[test]
fn an_updated_value_is_read_without_blanks_and_outer_quotes() {
    let file = store_with_ids(&[0, 1]);
    let file = update_task(
        &file,
        1,
        Some("description".to_string()),
        Some(" \"call  \"Bob\" back\" ".to_string()),
        9,
    );
    assert_eq!(read_task(&file, 1), Some(task(1, "call\"Bob\"back", "todo", 1, 9)));
    assert_eq!(read_task(&file, 0), Some(task(0, "t", "todo", 1, 1)));
}

#[test]
fn a_colon_in_an_updated_value_makes_the_entry_opaque() {
    let file = store_with_ids(&[0]);
    let file = update_task(&file, 0, Some("description".to_string()), Some("at 10:30".to_string()), 9);
    assert_eq!(read_task(&file, 0), None);
    assert_eq!(
        parse_entries(&file),
        vec![Entry::Opaque(
            "{\"id\":0,\"description\":\"at10:30\",\"status\":\"todo\",\"created_at\":1,\"updated_at\":9}"
                .to_string()
        )]
    );
}

#[test]
fn a_written_store_is_read_as_it_was_written() {
    let entries = vec![
        Entry::Decoded(task(0, "a", "todo", 1, 2)),
        Entry::Opaque("{\"note\":\"keep\"}".to_string()),
        Entry::Decoded(task(5, "b", "done", 3, 4)),
    ];
    assert_eq!(parse_entries(&render_entries(&entries)), entries);
}

#[test]
fn an_opaque_entry_that_ends_with_two_braces_loses_one() {
    let file = "[{\"a\":{\"b\":1}},{\"id\":0}]";
    assert_eq!(
        get_file_items(file),
        vec!["{\"a\":{\"b\":1}".to_string(), "{\"id\":0}".to_string()]
    );
}
