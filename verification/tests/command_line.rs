use std::path::PathBuf;
use task_tracker::commands::{
    match_command, parse_id, parse_id_and_value, run, ArgumentError, Cli, Commands, Outcome,
};
use task_tracker::task::Task;

fn file() -> PathBuf {
    PathBuf::from("tasks.db")
}

fn one_task() -> &'static str {
    "[{\"id\":0,\"description\":\"d\",\"status\":\"todo\",\"created_at\":1,\"updated_at\":1}]\n"
}

#[test]
fn every_command_is_matched_by_its_name() {
    let c = "0 x".to_string();
    assert_eq!(
        match_command("create", file(), c.clone()),
        Some(Cli { command: Commands::Create { file_name: file(), content: c.clone() } })
    );
    assert_eq!(
        match_command("read", file(), c.clone()),
        Some(Cli { command: Commands::Read { file_name: file(), content: c.clone() } })
    );
    assert_eq!(
        match_command("update", file(), c.clone()),
        Some(Cli { command: Commands::Update { file_name: file(), content: c.clone() } })
    );
    assert_eq!(
        match_command("delete", file(), c.clone()),
        Some(Cli { command: Commands::Delete { file_name: file(), content: c.clone() } })
    );
    assert_eq!(
        match_command("update-status", file(), c.clone()),
        Some(Cli { command: Commands::UpdateStatus { file_name: file(), content: c.clone() } })
    );
    assert_eq!(
        match_command("create-file", file(), c.clone()),
        Some(Cli { command: Commands::CreateFile { file_name: file() } })
    );
    assert_eq!(
        match_command("read-file", file(), c.clone()),
        Some(Cli { command: Commands::ReadFile { file_name: file() } })
    );
}

#[test]
fn an_unknown_command_is_not_matched() {
    assert_eq!(match_command("remove", file(), String::new()), None);
    assert_eq!(match_command("", file(), String::new()), None);
    assert_eq!(match_command("Create", file(), String::new()), None);
    assert_eq!(match_command("create ", file(), String::new()), None);
    assert_eq!(match_command("delete-file", file(), String::new()), None);
}

#[test]
fn an_id_is_a_number_of_64_bits() {
    assert_eq!(parse_id("0"), Ok(0));
    assert_eq!(parse_id("42"), Ok(42));
    assert_eq!(parse_id("+42"), Ok(42));
    assert_eq!(parse_id("18446744073709551615"), Ok(18446744073709551615));
    assert_eq!(parse_id("18446744073709551616"), Err(ArgumentError::InvalidId));
    assert_eq!(parse_id(""), Err(ArgumentError::InvalidId));
    assert_eq!(parse_id("+"), Err(ArgumentError::InvalidId));
    assert_eq!(parse_id("-1"), Err(ArgumentError::InvalidId));
    assert_eq!(parse_id("4 2"), Err(ArgumentError::InvalidId));
    assert_eq!(parse_id("four"), Err(ArgumentError::InvalidId));
}

#[test]
fn an_update_names_an_id_and_a_value() {
    assert_eq!(parse_id_and_value("0 done"), Ok((0, "done".to_string())));
    assert_eq!(parse_id_and_value("12 buy more milk"), Ok((12, "buy".to_string())));
    assert_eq!(parse_id_and_value("3 "), Ok((3, String::new())));
    assert_eq!(parse_id_and_value("3  x"), Ok((3, String::new())));
}

#[test]
fn an_update_without_id_or_value_is_refused() {
    assert_eq!(parse_id_and_value("3"), Err(ArgumentError::MissingValue));
    assert_eq!(parse_id_and_value(""), Err(ArgumentError::InvalidId));
    assert_eq!(parse_id_and_value("x"), Err(ArgumentError::InvalidId));
    assert_eq!(parse_id_and_value("x done"), Err(ArgumentError::InvalidId));
    assert_eq!(parse_id_and_value(" 3 done"), Err(ArgumentError::InvalidId));
}

#[test]
fn run_creates_the_file_text() {
    let command = Commands::CreateFile { file_name: file() };
    assert_eq!(run(&command, "", 5), Ok(Outcome::Written("[]\n".to_string())));
    assert_eq!(run(&command, one_task(), 5), Ok(Outcome::Written("[]\n".to_string())));
}

#[test]
fn run_creates_a_task_with_the_lowest_free_id() {
    let command = Commands::Create { file_name: file(), content: "next".to_string() };
    assert_eq!(
        run(&command, one_task(), 9),
        Ok(Outcome::Written(
            "[{\"id\":0,\"description\":\"d\",\"status\":\"todo\",\"created_at\":1,\"updated_at\":1},{\"id\":1,\"description\":\"next\",\"status\":\"todo\",\"created_at\":9,\"updated_at\":9}]\n"
                .to_string()
        ))
    );
}

#[test]
fn run_reads_a_task() {
    let found = Task {
        id: 0,
        description: "d".to_string(),
        status: "todo".to_string(),
        created_at: 1,
        updated_at: 1,
    };
    let command = Commands::Read { file_name: file(), content: "0".to_string() };
    assert_eq!(run(&command, one_task(), 9), Ok(Outcome::Found(Some(found))));
    let command = Commands::Read { file_name: file(), content: "1".to_string() };
    assert_eq!(run(&command, one_task(), 9), Ok(Outcome::Found(None)));
    let command = Commands::Read { file_name: file(), content: "zero".to_string() };
    assert_eq!(run(&command, one_task(), 9), Err(ArgumentError::InvalidId));
}

#[test]
fn run_updates_the_description() {
    let command = Commands::Update { file_name: file(), content: "0 walk".to_string() };
    assert_eq!(
        run(&command, one_task(), 9),
        Ok(Outcome::Written(
            "[{\"id\":0,\"description\":\"walk\",\"status\":\"todo\",\"created_at\":1,\"updated_at\":9}]\n"
                .to_string()
        ))
    );
    let command = Commands::Update { file_name: file(), content: "0".to_string() };
    assert_eq!(run(&command, one_task(), 9), Err(ArgumentError::MissingValue));
}

#[test]
fn run_updates_the_status() {
    let command = Commands::UpdateStatus { file_name: file(), content: "0 done".to_string() };
    assert_eq!(
        run(&command, one_task(), 9),
        Ok(Outcome::Written(
            "[{\"id\":0,\"description\":\"d\",\"status\":\"done\",\"created_at\":1,\"updated_at\":9}]\n"
                .to_string()
        ))
    );
    let command = Commands::UpdateStatus { file_name: file(), content: "nine done".to_string() };
    assert_eq!(run(&command, one_task(), 9), Err(ArgumentError::InvalidId));
}

#[test]
fn run_deletes_a_task() {
    let command = Commands::Delete { file_name: file(), content: "0".to_string() };
    assert_eq!(run(&command, one_task(), 9), Ok(Outcome::Written("[]\n".to_string())));
    let command = Commands::Delete { file_name: file(), content: "".to_string() };
    assert_eq!(run(&command, one_task(), 9), Err(ArgumentError::InvalidId));
}

#[test]
fn run_lists_the_tasks() {
    let command = Commands::ReadFile { file_name: file() };
    let listed = vec![Task {
        id: 0,
        description: "d".to_string(),
        status: "todo".to_string(),
        created_at: 1,
        updated_at: 1,
    }];
    assert_eq!(run(&command, one_task(), 9), Ok(Outcome::Listed(listed)));
    assert_eq!(run(&command, "", 9), Ok(Outcome::Listed(Vec::new())));
}
