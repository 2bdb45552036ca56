//! The commands of the command line, and what their arguments hold.
use crate::decimal::{parse_number, parse_u64};
use crate::store::{
    create_task, delete_task, empty_store, entries, first_with_id, list_tasks, read_task, render,
    task_views, tasks_of, update_task, updated_entries, with_new_task, without_id,
};
use crate::task::{key_description, key_status, task_view, Task, TaskView};
use crate::text::{
    chars_of, lemma_split_nonempty, same_text, split, split_text, string_of, texts,
};
use std::path::PathBuf;
use vstd::prelude::*;

verus! {

/// `std::path::PathBuf`, a path that the library carries and never reads.
#[verifier::external_type_specification]
#[verifier::external_body]
pub struct ExPathBuf(std::path::PathBuf);

/// A command with the file it is for and, where it takes one, its content:
/// the words after the file name, joined by single spaces.
#[derive(Debug, PartialEq, Eq)]
pub enum Commands {
    /// `create`: a new task; the content is its description.
    Create { file_name: PathBuf, content: String },
    /// `read`: the task with an id; the content is the id.
    Read { file_name: PathBuf, content: String },
    /// `update`: a new description; the content is an id and the value.
    Update { file_name: PathBuf, content: String },
    /// `delete`: the task with an id leaves; the content is the id.
    Delete { file_name: PathBuf, content: String },
    /// `update-status`: a new status; the content is an id and the value.
    UpdateStatus { file_name: PathBuf, content: String },
    /// `create-file`: a store without entries.
    CreateFile { file_name: PathBuf },
    /// `read-file`: all tasks.
    ReadFile { file_name: PathBuf },
}

/// What the command line asks for.
#[derive(Debug, PartialEq, Eq)]
pub struct Cli {
    pub command: Commands,
}

/// The command that the word `command` names, with its file and content.
pub open spec fn command_named(command: Seq<char>, file_name: PathBuf, content: String) -> Option<
    Commands,
> {
    if command == "create"@ {
        Some(Commands::Create { file_name, content })
    } else if command == "read"@ {
        Some(Commands::Read { file_name, content })
    } else if command == "update"@ {
        Some(Commands::Update { file_name, content })
    } else if command == "delete"@ {
        Some(Commands::Delete { file_name, content })
    } else if command == "update-status"@ {
        Some(Commands::UpdateStatus { file_name, content })
    } else if command == "create-file"@ {
        Some(Commands::CreateFile { file_name })
    } else if command == "read-file"@ {
        Some(Commands::ReadFile { file_name })
    } else {
        None
    }
}

/// Whether `word` is the text `name`.
fn is_word(word: &Vec<char>, name: &str) -> (r: bool)
    ensures
        r == (word@ == name@),
{
    same_text(word, &chars_of(name))
}

/// The command that `command` names, and `None` where it names none.
pub fn match_command(command: &str, file_name: PathBuf, content: String) -> (cli: Option<Cli>)
    ensures
        match cli {
            Some(cli) => command_named(command@, file_name, content) == Some(cli.command),
            None => command_named(command@, file_name, content) is None,
        },
{
    let word = chars_of(command);
    let command = if is_word(&word, "create") {
        Commands::Create { file_name, content }
    } else if is_word(&word, "read") {
        Commands::Read { file_name, content }
    } else if is_word(&word, "update") {
        Commands::Update { file_name, content }
    } else if is_word(&word, "delete") {
        Commands::Delete { file_name, content }
    } else if is_word(&word, "update-status") {
        Commands::UpdateStatus { file_name, content }
    } else if is_word(&word, "create-file") {
        Commands::CreateFile { file_name }
    } else if is_word(&word, "read-file") {
        Commands::ReadFile { file_name }
    } else {
        return None;
    };
    Some(Cli { command })
}

// ---------------------------------------------------------------------
// The content of a command
// ---------------------------------------------------------------------

/// What is wrong with the content of a command.
#[derive(Debug, Clone, Copy, PartialEq, Eq, Structural)]
pub enum ArgumentError {
    /// Where an id is expected there is no number of 64 bits.
    InvalidId,
    /// After the id no value follows.
    MissingValue,
}

/// The id and the value in the content of an update: the content is divided
/// at every space, the first word is the id and the second is the value.
/// Further words are not read.
pub open spec fn id_and_value(content: Seq<char>) -> Result<(nat, Seq<char>), ArgumentError> {
    let words = split(content, seq![' ']);
    match parse_number(words[0]) {
        None => Err(ArgumentError::InvalidId),
        Some(id) => if words.len() < 2 {
            Err(ArgumentError::MissingValue)
        } else {
            Ok((id, words[1]))
        },
    }
}

/// The id that `content` writes.
pub fn parse_id(content: &str) -> (r: Result<u64, ArgumentError>)
    ensures
        match r {
            Ok(id) => parse_number(content@) == Some(id as nat),
            Err(e) => e == ArgumentError::InvalidId && parse_number(content@) is None,
        },
{
    match parse_u64(&chars_of(content)) {
        Some(id) => Ok(id),
        None => Err(ArgumentError::InvalidId),
    }
}

/// The id and the value in the content of an update.
pub fn parse_id_and_value(content: &str) -> (r: Result<(u64, String), ArgumentError>)
    ensures
        match r {
            Ok((id, value)) => id_and_value(content@) == Ok::<_, ArgumentError>(
                (id as nat, value@),
            ),
            Err(e) => id_and_value(content@) == Err::<(nat, Seq<char>), _>(e),
        },
{
    let mut space: Vec<char> = Vec::new();
    space.push(' ');
    assert(space@ =~= seq![' ']);
    let words = split_text(&chars_of(content), &space);
    proof {
        lemma_split_nonempty(content@, seq![' ']);
        assert(texts(words@).len() == words@.len());
        assert(texts(words@)[0] == words@[0]@);
    }
    match parse_u64(&words[0]) {
        None => Err(ArgumentError::InvalidId),
        Some(id) => {
            if words.len() < 2 {
                Err(ArgumentError::MissingValue)
            } else {
                assert(texts(words@)[1] == words@[1]@);
                Ok((id, string_of(&words[1])))
            }
        },
    }
}

// ---------------------------------------------------------------------
// Carrying a command out
// ---------------------------------------------------------------------

/// What a command gives.
#[derive(Debug, Clone, PartialEq, Eq)]
pub enum Outcome {
    /// The store text to write in place of the one that was read.
    Written(String),
    /// The task that was asked for, if there is one.
    Found(Option<Task>),
    /// The tasks of the store.
    Listed(Vec<Task>),
}

/// The mathematical value of an `Outcome`.
pub enum OutcomeView {
    Written(Seq<char>),
    Found(Option<TaskView>),
    Listed(Seq<TaskView>),
}

impl View for Outcome {
    type V = OutcomeView;

    open spec fn view(&self) -> OutcomeView {
        match self {
            Outcome::Written(s) => OutcomeView::Written(s@),
            Outcome::Found(t) => OutcomeView::Found(task_view(*t)),
            Outcome::Listed(v) => OutcomeView::Listed(task_views(v@)),
        }
    }
}

/// The view of what carrying a command out returned.
pub open spec fn result_view(r: Result<Outcome, ArgumentError>) -> Result<
    OutcomeView,
    ArgumentError,
> {
    match r {
        Ok(o) => Ok(o@),
        Err(e) => Err(e),
    }
}

/// The store text after the update that `content` asks for, of the field
/// `field`, at the time `now`.
pub open spec fn update_outcome(
    contents: Seq<char>,
    content: Seq<char>,
    field: Seq<char>,
    now: nat,
) -> Result<OutcomeView, ArgumentError> {
    match id_and_value(content) {
        Ok((id, value)) => Ok(
            OutcomeView::Written(
                render(updated_entries(entries(contents), id, Some(field), Some(value), now)),
            ),
        ),
        Err(e) => Err(e),
    }
}

/// What `command` gives on the store text `contents` at the time `now`.
pub open spec fn outcome_of(command: Commands, contents: Seq<char>, now: nat) -> Result<
    OutcomeView,
    ArgumentError,
> {
    match command {
        Commands::Create { file_name, content } => Ok(
            OutcomeView::Written(render(with_new_task(entries(contents), content@, now))),
        ),
        Commands::Read { file_name, content } => match parse_number(content@) {
            Some(id) => Ok(OutcomeView::Found(first_with_id(tasks_of(entries(contents)), id))),
            None => Err(ArgumentError::InvalidId),
        },
        Commands::Update { file_name, content } => update_outcome(
            contents,
            content@,
            key_description(),
            now,
        ),
        Commands::Delete { file_name, content } => match parse_number(content@) {
            Some(id) => Ok(OutcomeView::Written(render(without_id(entries(contents), id)))),
            None => Err(ArgumentError::InvalidId),
        },
        Commands::UpdateStatus { file_name, content } => update_outcome(
            contents,
            content@,
            key_status(),
            now,
        ),
        Commands::CreateFile { file_name } => Ok(OutcomeView::Written(render(Seq::empty()))),
        Commands::ReadFile { file_name } => Ok(
            OutcomeView::Listed(tasks_of(entries(contents))),
        ),
    }
}

/// Carries out an update of the field `field`.
fn run_update(contents: &str, content: &str, field: &str, now: u64) -> (r: Result<
    Outcome,
    ArgumentError,
>)
    ensures
        result_view(r) == update_outcome(contents@, content@, field@, now as nat),
{
    match parse_id_and_value(content) {
        Ok((id, value)) => Ok(
            Outcome::Written(update_task(contents, id, Some(field.to_owned()), Some(value), now)),
        ),
        Err(e) => Err(e),
    }
}

/// Carries `command` out on the store text `contents` at the time `now`
/// (seconds since the epoch). `contents` is what the file of the command
/// holds; `create-file` does not read it.
pub fn run(command: &Commands, contents: &str, now: u64) -> (r: Result<Outcome, ArgumentError>)
    ensures
        result_view(r) == outcome_of(*command, contents@, now as nat),
{
    match command {
        Commands::Create { file_name, content } => Ok(
            Outcome::Written(create_task(contents, content.clone(), now)),
        ),
        Commands::Read { file_name, content } => match parse_id(content.as_str()) {
            Ok(id) => Ok(Outcome::Found(read_task(contents, id))),
            Err(e) => Err(e),
        },
        Commands::Update { file_name, content } => run_update(
            contents,
            content.as_str(),
            "description",
            now,
        ),
        Commands::Delete { file_name, content } => match parse_id(content.as_str()) {
            Ok(id) => Ok(Outcome::Written(delete_task(contents, id))),
            Err(e) => Err(e),
        },
        Commands::UpdateStatus { file_name, content } => run_update(
            contents,
            content.as_str(),
            "status",
            now,
        ),
        Commands::CreateFile { file_name } => Ok(Outcome::Written(empty_store())),
        Commands::ReadFile { file_name } => Ok(Outcome::Listed(list_tasks(contents))),
    }
}

} // verus!
