use task_tracker::task::Task;
use task_tracker::text::{chars_of, same_text, string_of};

fn sample() -> Task {
    Task {
        id: 7,
        description: "write".to_string(),
        status: "todo".to_string(),
        created_at: 10,
        updated_at: 20,
    }
}

#[test]
fn new_task_is_todo_with_both_times_now() {
    let t = Task::new(3, "buy milk".to_string(), 1700000000);
    assert_eq!(t.id, 3);
    assert_eq!(t.description, "buy milk");
    assert_eq!(t.status, "todo");
    assert_eq!(t.created_at, 1700000000);
    assert_eq!(t.updated_at, 1700000000);
}

#[test]
fn to_json_writes_the_five_members() {
    let t = Task::new(0, "buy milk".to_string(), 12);
    assert_eq!(
        t.to_json(),
        "{\"id\":0,\"description\":\"buy milk\",\"status\":\"todo\",\"created_at\":12,\"updated_at\":12}"
    );
}

#[test]
fn to_json_writes_large_numbers_in_full() {
    let t = Task {
        id: 18446744073709551615,
        description: String::new(),
        status: String::new(),
        created_at: 1000,
        updated_at: 90,
    };
    assert_eq!(
        t.to_json(),
        "{\"id\":18446744073709551615,\"description\":\"\",\"status\":\"\",\"created_at\":1000,\"updated_at\":90}"
    );
}

#[test]
fn from_json_reads_what_to_json_wrote() {
    let t = Task::new(18446744073709551615, "write spec".to_string(), 99);
    let back = Task::from_json(&t.to_json());
    assert_eq!(back, Some(t));
}

#[test]
fn round_trip_keeps_quotes_and_braces_inside_a_value() {
    let t = Task {
        id: 1,
        description: "say \"hi\" {now}".to_string(),
        status: "in[progress]".to_string(),
        created_at: 5,
        updated_at: 6,
    };
    assert_eq!(Task::from_json(&t.to_json()), Some(t));
}

#[test]
fn round_trip_keeps_empty_values() {
    let t = Task {
        id: 0,
        description: String::new(),
        status: String::new(),
        created_at: 0,
        updated_at: 0,
    };
    assert_eq!(Task::from_json(&t.to_json()), Some(t));
}

#[test]
fn from_json_reads_members_in_any_order() {
    let t = Task::from_json(
        "{\"updated_at\":20,\"status\":\"todo\",\"id\":7,\"created_at\":10,\"description\":\"write\"}",
    );
    assert_eq!(t, Some(sample()));
}

#[test]
fn from_json_reads_without_braces_and_quotes() {
    let t = Task::from_json("id:7,description:write,status:todo,created_at:10,updated_at:20");
    assert_eq!(t, Some(sample()));
}

#[test]
fn from_json_trims_every_brace_and_quote_at_the_ends() {
    let t = Task::from_json(
        "{{\"\"id\"\":7,\"description\":\"\"write\"\",\"status\":\"todo\",\"created_at\":10,\"updated_at\":20}}}",
    );
    assert_eq!(t, Some(sample()));
}

#[test]
fn from_json_takes_the_last_value_of_a_key() {
    let t = Task::from_json(
        "{\"id\":1,\"description\":\"write\",\"status\":\"done\",\"created_at\":10,\"updated_at\":20,\"id\":7,\"status\":\"todo\"}",
    );
    assert_eq!(t, Some(sample()));
}

#[test]
fn from_json_passes_over_parts_that_are_no_members() {
    let t = Task::from_json(
        "{\"id\":7,junk,\"a\":\"b\":\"c\",\"description\":\"write\",\"status\":\"todo\",\"created_at\":10,\"updated_at\":20,}",
    );
    assert_eq!(t, Some(sample()));
}

#[test]
fn from_json_accepts_a_plus_sign_and_leading_zeros() {
    let t = Task::from_json(
        "{\"id\":+007,\"description\":\"write\",\"status\":\"todo\",\"created_at\":010,\"updated_at\":+20}",
    );
    assert_eq!(t, Some(sample()));
}

#[test]
fn from_json_needs_every_field() {
    assert_eq!(
        Task::from_json("{\"description\":\"write\",\"status\":\"todo\",\"created_at\":10,\"updated_at\":20}"),
        None
    );
    assert_eq!(
        Task::from_json("{\"id\":7,\"status\":\"todo\",\"created_at\":10,\"updated_at\":20}"),
        None
    );
    assert_eq!(
        Task::from_json("{\"id\":7,\"description\":\"write\",\"created_at\":10,\"updated_at\":20}"),
        None
    );
    assert_eq!(
        Task::from_json("{\"id\":7,\"description\":\"write\",\"status\":\"todo\",\"updated_at\":20}"),
        None
    );
    assert_eq!(
        Task::from_json("{\"id\":7,\"description\":\"write\",\"status\":\"todo\",\"created_at\":10}"),
        None
    );
    assert_eq!(Task::from_json(""), None);
    assert_eq!(Task::from_json("{}"), None);
}

#[test]
fn from_json_needs_numbers_where_numbers_belong() {
    assert_eq!(
        Task::from_json("{\"id\":seven,\"description\":\"write\",\"status\":\"todo\",\"created_at\":10,\"updated_at\":20}"),
        None
    );
    assert_eq!(
        Task::from_json("{\"id\":-7,\"description\":\"write\",\"status\":\"todo\",\"created_at\":10,\"updated_at\":20}"),
        None
    );
    assert_eq!(
        Task::from_json("{\"id\":7,\"description\":\"write\",\"status\":\"todo\",\"created_at\":1x,\"updated_at\":20}"),
        None
    );
    assert_eq!(
        Task::from_json("{\"id\":7,\"description\":\"write\",\"status\":\"todo\",\"created_at\":10,\"updated_at\":}"),
        None
    );
    assert_eq!(
        Task::from_json("{\"id\":18446744073709551616,\"description\":\"write\",\"status\":\"todo\",\"created_at\":10,\"updated_at\":20}"),
        None
    );
}

#[test]
fn a_comma_or_colon_in_a_value_does_not_survive() {
    let with_comma = Task::new(1, "milk, eggs".to_string(), 5);
    assert_ne!(Task::from_json(&with_comma.to_json()), Some(with_comma));
    let with_colon = Task::new(1, "at 10:30".to_string(), 5);
    assert_eq!(Task::from_json(&with_colon.to_json()), None);
    let with_quote = Task::new(1, "\"quoted\"".to_string(), 5);
    let back = Task::from_json(&with_quote.to_json()).unwrap();
    assert_eq!(back.description, "quoted");
}

#[test]
fn update_sets_the_description_and_the_time() {
    let mut t = sample();
    t.update(Some("description".to_string()), Some("read".to_string()), 30);
    assert_eq!(
        t,
        Task {
            id: 7,
            description: "read".to_string(),
            status: "todo".to_string(),
            created_at: 10,
            updated_at: 30,
        }
    );
}

#[test]
fn update_sets_the_status_and_the_time() {
    let mut t = sample();
    t.update(Some("status".to_string()), Some("done".to_string()), 30);
    assert_eq!(
        t,
        Task {
            id: 7,
            description: "write".to_string(),
            status: "done".to_string(),
            created_at: 10,
            updated_at: 30,
        }
    );
}

#[test]
fn update_of_an_unknown_field_sets_the_time_only() {
    let mut t = sample();
    t.update(Some("id".to_string()), Some("9".to_string()), 30);
    let mut expected = sample();
    expected.updated_at = 30;
    assert_eq!(t, expected);
    t.update(None, Some("x".to_string()), 31);
    expected.updated_at = 31;
    assert_eq!(t, expected);
}

#[test]
fn update_without_a_value_sets_the_time_only() {
    let mut t = sample();
    t.update(Some("description".to_string()), None, 5);
    let mut expected = sample();
    expected.updated_at = 5;
    assert_eq!(t, expected);
}

#[test]
fn the_text_as_characters_is_the_text() {
    let t = sample();
    assert_eq!(string_of(&t.to_chars()), t.to_json());
    assert_eq!(Task::from_chars(&t.to_chars()), Some(sample()));
    assert_eq!(Task::from_chars(&chars_of("{\"id\":7}")), None);
}

#[test]
fn texts_are_the_same_where_every_character_is() {
    assert!(same_text(&chars_of("status"), &chars_of("status")));
    assert!(same_text(&chars_of(""), &chars_of("")));
    assert!(!same_text(&chars_of("status"), &chars_of("statuS")));
    assert!(!same_text(&chars_of("status"), &chars_of("statu")));
    assert!(!same_text(&chars_of(""), &chars_of("s")));
}

#[test]
fn a_key_is_matched_letter_by_letter() {
    assert_eq!(
        Task::from_json("{\"Id\":7,\"description\":\"write\",\"status\":\"todo\",\"created_at\":10,\"updated_at\":20}"),
        None
    );
    assert_eq!(
        Task::from_json("{\"id \":7,\"description\":\"write\",\"status\":\"todo\",\"created_at\":10,\"updated_at\":20}"),
        None
    );
}
