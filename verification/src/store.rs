//! The store: a text that holds an array of task fragments, and the
//! procedures that read it and write it anew.
//!
//! The array is what stands between the first `[` and the last `]` of the
//! text. It is divided at every `},`; a piece that is not empty becomes a
//! fragment, cleared of blanks and closed with a `}` if it lacks one. A
//! fragment that holds a task is a decoded entry; any other is kept as an
//! opaque entry and written back as it is. A text without an array is read
//! as a store without entries.
//!
//! Every fragment is cleared of its spaces, tabs and newlines, those inside
//! a description or a status too: `buy milk` is read as `buymilk`.
use crate::ids::{is_lowest_available, lowest_available, lowest_available_id, numbers};
use crate::task::{
    decode_task, encode_task, initial_status, task_view, updated_task, Task, TaskView,
};
use crate::text::{
    chars_of, extend, join, slice_of, split, split_text, string_of, string_views, strip_blanks,
    texts, trim, trim_text, without_blanks,
};
use vstd::prelude::*;

verus! {

/// One entry of the store.
#[derive(Debug, Clone, PartialEq, Eq)]
pub enum Entry {
    /// A fragment that holds a task.
    Decoded(Task),
    /// A fragment that holds none, kept as text.
    Opaque(String),
}

/// The mathematical value of an `Entry`.
pub enum EntryView {
    Decoded(TaskView),
    Opaque(Seq<char>),
}

impl View for Entry {
    type V = EntryView;

    open spec fn view(&self) -> EntryView {
        match self {
            Entry::Decoded(t) => EntryView::Decoded(t@),
            Entry::Opaque(s) => EntryView::Opaque(s@),
        }
    }
}

/// The views of a sequence of entries.
pub open spec fn entry_views(v: Seq<Entry>) -> Seq<EntryView> {
    v.map_values(|e: Entry| e@)
}

/// The views of a sequence of tasks.
pub open spec fn task_views(v: Seq<Task>) -> Seq<TaskView> {
    v.map_values(|t: Task| t@)
}

/// The view of an optional text.
pub open spec fn text_view(s: Option<String>) -> Option<Seq<char>> {
    match s {
        Some(s) => Some(s@),
        None => None,
    }
}

// ---------------------------------------------------------------------
// From text to entries
// ---------------------------------------------------------------------

/// The index of the first `c` in `s` at or after `from`, and `s.len()`
/// where there is none.
pub open spec fn first_index_from(s: Seq<char>, c: char, from: int) -> int
    decreases s.len() - from,
{
    if from < 0 || from >= s.len() {
        s.len() as int
    } else if s[from] == c {
        from
    } else {
        first_index_from(s, c, from + 1)
    }
}

/// The index of the last `c` in `s` before `to`, and `-1` where there is
/// none.
pub open spec fn last_index_before(s: Seq<char>, c: char, to: int) -> int
    decreases to,
{
    if to <= 0 || to > s.len() {
        -1
    } else if s[to - 1] == c {
        to - 1
    } else {
        last_index_before(s, c, to - 1)
    }
}

/// Whether `s` holds an array: a `[` with a `]` somewhere after it.
pub open spec fn has_array(s: Seq<char>) -> bool {
    first_index_from(s, '[', 0) < last_index_before(s, ']', s.len() as int)
}

/// What the array of `s` holds: the text from the first `[` to the last
/// `]`, without the brackets at its ends. Empty where `s` holds no array.
pub open spec fn array_body(s: Seq<char>) -> Seq<char> {
    if has_array(s) {
        trim(
            s.subrange(
                first_index_from(s, '[', 0),
                last_index_before(s, ']', s.len() as int) + 1,
            ),
            '[',
            ']',
        )
    } else {
        Seq::empty()
    }
}

/// A piece as a fragment: cleared of blanks, and closed with a `}` if it
/// does not end with one.
pub open spec fn normalized(piece: Seq<char>) -> Seq<char> {
    let bare = without_blanks(piece);
    if bare.len() > 0 && bare.last() == '}' {
        bare
    } else {
        bare.push('}')
    }
}

/// The fragments that `pieces` give: one for each piece that is not empty.
pub open spec fn fragments_of(pieces: Seq<Seq<char>>) -> Seq<Seq<char>>
    decreases pieces.len(),
{
    if pieces.len() == 0 {
        Seq::empty()
    } else if pieces.last().len() == 0 {
        fragments_of(pieces.drop_last())
    } else {
        fragments_of(pieces.drop_last()).push(normalized(pieces.last()))
    }
}

/// The separator at which the array of a store is divided: `},`.
pub open spec fn closing() -> Seq<char> {
    seq!['}', ',']
}

/// The fragments of the store text `s`.
pub open spec fn fragments(s: Seq<char>) -> Seq<Seq<char>> {
    fragments_of(split(array_body(s), closing()))
}

/// The entry that a fragment gives.
pub open spec fn entry_of(fragment: Seq<char>) -> EntryView {
    match decode_task(fragment) {
        Some(t) => EntryView::Decoded(t),
        None => EntryView::Opaque(fragment),
    }
}

/// The entries of the store text `s`, in their order.
pub open spec fn entries(s: Seq<char>) -> Seq<EntryView> {
    fragments(s).map_values(|f: Seq<char>| entry_of(f))
}

// ---------------------------------------------------------------------
// From entries to text
// ---------------------------------------------------------------------

/// The text that is written for an entry.
pub open spec fn entry_text(e: EntryView) -> Seq<char> {
    match e {
        EntryView::Decoded(t) => encode_task(t),
        EntryView::Opaque(s) => s,
    }
}

/// The store text for `entries`: their texts, separated by commas, in
/// brackets, and a newline.
pub open spec fn render(entries: Seq<EntryView>) -> Seq<char> {
    seq!['['] + join(entries.map_values(|e: EntryView| entry_text(e)), seq![',']) + seq![
        ']',
        '\n',
    ]
}

// ---------------------------------------------------------------------
// The procedures, on entries
// ---------------------------------------------------------------------

/// Whether `e` is a task with the id `id`.
pub open spec fn is_task_with_id(e: EntryView, id: nat) -> bool {
    match e {
        EntryView::Decoded(t) => t.id == id,
        EntryView::Opaque(_) => false,
    }
}

/// The tasks among `entries`, in their order.
pub open spec fn tasks_of(entries: Seq<EntryView>) -> Seq<TaskView>
    decreases entries.len(),
{
    if entries.len() == 0 {
        Seq::empty()
    } else {
        match entries.last() {
            EntryView::Decoded(t) => tasks_of(entries.drop_last()).push(t),
            EntryView::Opaque(_) => tasks_of(entries.drop_last()),
        }
    }
}

/// The first of `tasks` with the id `id`.
pub open spec fn first_with_id(tasks: Seq<TaskView>, id: nat) -> Option<TaskView>
    decreases tasks.len(),
{
    if tasks.len() == 0 {
        None
    } else if tasks[0].id == id {
        Some(tasks[0])
    } else {
        first_with_id(tasks.drop_first(), id)
    }
}

/// The entry `e` after an update of the task `id`: a task with that id is
/// updated, any other entry stays.
pub open spec fn updated_entry(
    e: EntryView,
    id: nat,
    key: Option<Seq<char>>,
    value: Option<Seq<char>>,
    now: nat,
) -> EntryView {
    match e {
        EntryView::Decoded(t) => if t.id == id {
            EntryView::Decoded(updated_task(t, key, value, now))
        } else {
            e
        },
        EntryView::Opaque(_) => e,
    }
}

/// The entries after an update of the task `id`.
pub open spec fn updated_entries(
    entries: Seq<EntryView>,
    id: nat,
    key: Option<Seq<char>>,
    value: Option<Seq<char>>,
    now: nat,
) -> Seq<EntryView> {
    entries.map_values(|e: EntryView| updated_entry(e, id, key, value, now))
}

/// The entries without the tasks with the id `id`.
pub open spec fn without_id(entries: Seq<EntryView>, id: nat) -> Seq<EntryView>
    decreases entries.len(),
{
    if entries.len() == 0 {
        Seq::empty()
    } else if is_task_with_id(entries.last(), id) {
        without_id(entries.drop_last(), id)
    } else {
        without_id(entries.drop_last(), id).push(entries.last())
    }
}

/// The ids of `tasks`, in their order.
pub open spec fn ids_of(tasks: Seq<TaskView>) -> Seq<nat> {
    tasks.map_values(|t: TaskView| t.id)
}

/// The task that is created with the id `id` at the time `now`.
pub open spec fn new_task(id: nat, description: Seq<char>, now: nat) -> TaskView {
    TaskView { id, description, status: initial_status(), created_at: now, updated_at: now }
}

/// The entries after a task with this description was created at the time
/// `now`: it stands last and has the lowest id that no task had.
pub open spec fn with_new_task(
    entries: Seq<EntryView>,
    description: Seq<char>,
    now: nat,
) -> Seq<EntryView> {
    entries.push(
        EntryView::Decoded(
            new_task(lowest_available(ids_of(tasks_of(entries))), description, now),
        ),
    )
}

// ---------------------------------------------------------------------
// Reading a store text
// ---------------------------------------------------------------------

/// The index of the first `c` in `text`, and `text.len()` where there is
/// none.
fn find_first(text: &Vec<char>, c: char) -> (at: usize)
    ensures
        at <= text.len(),
        at == first_index_from(text@, c, 0),
{
    let mut i: usize = 0;
    while i < text.len() && text[i] != c
        invariant
            i <= text.len(),
            first_index_from(text@, c, 0) == first_index_from(text@, c, i as int),
        decreases text.len() - i,
    {
        i += 1;
    }
    i
}

/// One more than the index of the last `c` in `text`, and 0 where there is
/// none.
fn find_last(text: &Vec<char>, c: char) -> (end: usize)
    ensures
        end <= text.len(),
        end == last_index_before(text@, c, text.len() as int) + 1,
{
    let mut i: usize = text.len();
    while i > 0 && text[i - 1] != c
        invariant
            i <= text.len(),
            last_index_before(text@, c, text.len() as int) == last_index_before(
                text@,
                c,
                i as int,
            ),
        decreases i,
    {
        i -= 1;
    }
    i
}

/// What the array of `text` holds, and `None` where `text` holds no array.
pub fn find_array_body(text: &Vec<char>) -> (body: Option<Vec<char>>)
    ensures
        body is Some == has_array(text@),
        match body {
            Some(b) => b@ == array_body(text@),
            None => array_body(text@).len() == 0,
        },
{
    let open = find_first(text, '[');
    let end = find_last(text, ']');
    if end > 0 && open < end - 1 {
        let span = slice_of(text, open, end);
        Some(trim_text(&span, '[', ']'))
    } else {
        None
    }
}

/// Clears a piece of blanks and closes it with a `}` if it lacks one.
pub fn normalize(piece: &Vec<char>) -> (fragment: Vec<char>)
    ensures
        fragment@ == normalized(piece@),
{
    let mut bare = strip_blanks(piece);
    if !(bare.len() > 0 && bare[bare.len() - 1] == '}') {
        bare.push('}');
    }
    bare
}

/// The fragments of the store text `text`.
pub fn read_fragments(text: &Vec<char>) -> (items: Vec<Vec<char>>)
    ensures
        texts(items@) == fragments(text@),
{
    let body = match find_array_body(text) {
        Some(b) => b,
        None => Vec::new(),
    };
    let mut sep: Vec<char> = Vec::new();
    sep.push('}');
    sep.push(',');
    assert(sep@ =~= seq!['}', ',']);
    let pieces = split_text(&body, &sep);
    let mut items: Vec<Vec<char>> = Vec::new();
    let mut i: usize = 0;
    assert(texts(pieces@).take(0) =~= Seq::<Seq<char>>::empty());
    while i < pieces.len()
        invariant
            i <= pieces.len(),
            texts(items@) == fragments_of(texts(pieces@).take(i as int)),
        decreases pieces.len() - i,
    {
        let ghost before = texts(items@);
        assert(texts(pieces@).take(i + 1).drop_last() == texts(pieces@).take(i as int));
        assert(texts(pieces@).take(i + 1).last() == pieces@[i as int]@);
        if pieces[i].len() > 0 {
            let fragment = normalize(&pieces[i]);
            items.push(fragment);
            assert(texts(items@) =~= before.push(fragment@));
        }
        i += 1;
    }
    assert(texts(pieces@).take(pieces.len() as int) == texts(pieces@));
    items
}

/// The fragments of the store text `contents`, each as a string.
pub fn get_file_items(contents: &str) -> (items: Vec<String>)
    ensures
        string_views(items@) == fragments(contents@),
{
    let text = chars_of(contents);
    let fragments = read_fragments(&text);
    let mut items: Vec<String> = Vec::new();
    let mut i: usize = 0;
    while i < fragments.len()
        invariant
            i <= fragments.len(),
            string_views(items@) == texts(fragments@).take(i as int),
        decreases fragments.len() - i,
    {
        let ghost before = string_views(items@);
        let item = string_of(&fragments[i]);
        items.push(item);
        assert(string_views(items@) =~= before.push(item@));
        i += 1;
        assert(texts(fragments@).take(i as int) =~= before.push(item@));
    }
    assert(texts(fragments@).take(fragments.len() as int) == texts(fragments@));
    items
}

/// The entries of the store text `contents`.
pub fn parse_entries(contents: &str) -> (parsed: Vec<Entry>)
    ensures
        entry_views(parsed@) == entries(contents@),
{
    let text = chars_of(contents);
    let fragments = read_fragments(&text);
    let mut parsed: Vec<Entry> = Vec::new();
    let mut i: usize = 0;
    while i < fragments.len()
        invariant
            i <= fragments.len(),
            texts(fragments@) == crate::store::fragments(contents@),
            entry_views(parsed@) == entries(contents@).take(i as int),
        decreases fragments.len() - i,
    {
        let ghost before = entry_views(parsed@);
        let entry = match Task::from_chars(&fragments[i]) {
            Some(task) => Entry::Decoded(task),
            None => Entry::Opaque(string_of(&fragments[i])),
        };
        assert(texts(fragments@)[i as int] == fragments@[i as int]@);
        assert(entry@ == entry_of(fragments@[i as int]@));
        parsed.push(entry);
        assert(entry_views(parsed@) =~= before.push(entry@));
        i += 1;
        assert(entries(contents@).take(i as int) =~= before.push(entry@));
    }
    assert(entries(contents@).take(fragments.len() as int) == entries(contents@));
    parsed
}

/// The store text for `entries`.
pub fn render_entries(entries: &Vec<Entry>) -> (contents: String)
    ensures
        contents@ == render(entry_views(entries@)),
{
    let ghost all = entry_views(entries@).map_values(|e: EntryView| entry_text(e));
    let mut out: Vec<char> = Vec::new();
    out.push('[');
    let mut i: usize = 0;
    assert(all.take(0) =~= Seq::<Seq<char>>::empty());
    while i < entries.len()
        invariant
            i <= entries.len(),
            all == entry_views(entries@).map_values(|e: EntryView| entry_text(e)),
            out@ == seq!['['] + join(all.take(i as int), seq![',']),
        decreases entries.len() - i,
    {
        let ghost before = out@;
        if i > 0 {
            out.push(',');
        }
        match &entries[i] {
            Entry::Decoded(task) => {
                let text = task.to_chars();
                extend(&mut out, &text);
            },
            Entry::Opaque(text) => {
                let text = chars_of(text.as_str());
                extend(&mut out, &text);
            },
        }
        assert(all.take(i + 1).drop_last() == all.take(i as int));
        assert(all.take(i + 1).last() == entry_text(entries@[i as int]@));
        assert(out@ =~= seq!['['] + join(all.take(i + 1), seq![',']));
        i += 1;
    }
    assert(all.take(entries.len() as int) == all);
    out.push(']');
    out.push('\n');
    assert(out@ =~= seq!['['] + join(all, seq![',']) + seq![']', '\n']);
    string_of(&out)
}

// ---------------------------------------------------------------------
// The procedures
// ---------------------------------------------------------------------

/// A task with the fields of `task`.
fn copy_task(task: &Task) -> (copy: Task)
    ensures
        copy@ == task@,
{
    Task {
        id: task.id,
        description: task.description.clone(),
        status: task.status.clone(),
        created_at: task.created_at,
        updated_at: task.updated_at,
    }
}

/// A text with the characters of `text`, where there is one.
fn copy_text(text: &Option<String>) -> (copy: Option<String>)
    ensures
        text_view(copy) == text_view(*text),
{
    match text {
        Some(s) => Some(s.clone()),
        None => None,
    }
}

/// The store text that holds no entry: `[]` and a newline.
pub fn empty_store() -> (contents: String)
    ensures
        contents@ == render(Seq::empty()),
        contents@ == seq!['[', ']', '\n'],
{
    let entries: Vec<Entry> = Vec::new();
    let contents = render_entries(&entries);
    proof {
        let none = Seq::<EntryView>::empty();
        assert(entry_views(entries@) =~= none);
        assert(none.map_values(|e: EntryView| entry_text(e)).len() == 0);
        assert(render(none) =~= seq!['[', ']', '\n']);
    }
    contents
}

/// The tasks of the store text `contents`, in their order.
pub fn list_tasks(contents: &str) -> (tasks: Vec<Task>)
    ensures
        task_views(tasks@) == tasks_of(entries(contents@)),
{
    let parsed = parse_entries(contents);
    let mut tasks: Vec<Task> = Vec::new();
    let mut i: usize = 0;
    assert(entry_views(parsed@).take(0) =~= Seq::<EntryView>::empty());
    while i < parsed.len()
        invariant
            i <= parsed.len(),
            task_views(tasks@) == tasks_of(entry_views(parsed@).take(i as int)),
        decreases parsed.len() - i,
    {
        let ghost before = task_views(tasks@);
        assert(entry_views(parsed@).take(i + 1).drop_last() == entry_views(parsed@).take(
            i as int,
        ));
        assert(entry_views(parsed@).take(i + 1).last() == parsed@[i as int]@);
        match &parsed[i] {
            Entry::Decoded(task) => {
                let task = copy_task(task);
                tasks.push(task);
                assert(task_views(tasks@) =~= before.push(task@));
            },
            Entry::Opaque(_) => {},
        }
        i += 1;
    }
    assert(entry_views(parsed@).take(parsed.len() as int) == entry_views(parsed@));
    tasks
}

/// The first task of the store text `contents` with the id `task_id`, and
/// `None` where no task has it.
pub fn read_task(contents: &str, task_id: u64) -> (task: Option<Task>)
    ensures
        task_view(task) == first_with_id(tasks_of(entries(contents@)), task_id as nat),
{
    let tasks = list_tasks(contents);
    let mut i: usize = 0;
    assert(task_views(tasks@).skip(0) =~= task_views(tasks@));
    while i < tasks.len()
        invariant
            i <= tasks.len(),
            task_views(tasks@) == tasks_of(entries(contents@)),
            first_with_id(task_views(tasks@), task_id as nat) == first_with_id(
                task_views(tasks@).skip(i as int),
                task_id as nat,
            ),
        decreases tasks.len() - i,
    {
        assert(task_views(tasks@).skip(i as int)[0] == tasks@[i as int]@);
        if tasks[i].id == task_id {
            return Some(copy_task(&tasks[i]));
        }
        assert(task_views(tasks@).skip(i as int).drop_first() == task_views(tasks@).skip(i + 1));
        i += 1;
    }
    None
}

/// The store text `contents` written anew with `task` as its last entry.
pub fn write_task(contents: &str, task: Task) -> (new_contents: String)
    ensures
        new_contents@ == render(entries(contents@).push(EntryView::Decoded(task@))),
{
    let mut parsed = parse_entries(contents);
    let ghost before = entry_views(parsed@);
    let entry = Entry::Decoded(task);
    parsed.push(entry);
    assert(entry_views(parsed@) =~= before.push(entry@));
    render_entries(&parsed)
}

/// The store text `contents` written anew after an update at the time
/// `now` of every task with the id `task_id`: with a value and the field
/// `description` or `status`, that field takes the value; `updated_at`
/// becomes `now` in every case. The other entries stay.
pub fn update_task(
    contents: &str,
    task_id: u64,
    field: Option<String>,
    value: Option<String>,
    now: u64,
) -> (new_contents: String)
    ensures
        new_contents@ == render(
            updated_entries(
                entries(contents@),
                task_id as nat,
                text_view(field),
                text_view(value),
                now as nat,
            ),
        ),
{
    let parsed = parse_entries(contents);
    let ghost old_entries = entry_views(parsed@);
    let ghost key = text_view(field);
    let ghost val = text_view(value);
    let mut changed: Vec<Entry> = Vec::new();
    let mut i: usize = 0;
    while i < parsed.len()
        invariant
            i <= parsed.len(),
            old_entries == entry_views(parsed@),
            key == text_view(field),
            val == text_view(value),
            entry_views(changed@) == updated_entries(
                old_entries.take(i as int),
                task_id as nat,
                key,
                val,
                now as nat,
            ),
        decreases parsed.len() - i,
    {
        let ghost before = entry_views(changed@);
        let entry = match &parsed[i] {
            Entry::Decoded(task) => {
                let mut task = copy_task(task);
                if task.id == task_id {
                    task.update(copy_text(&field), copy_text(&value), now);
                }
                Entry::Decoded(task)
            },
            Entry::Opaque(text) => Entry::Opaque(text.clone()),
        };
        assert(entry@ == updated_entry(parsed@[i as int]@, task_id as nat, key, val, now as nat));
        changed.push(entry);
        assert(entry_views(changed@) =~= before.push(entry@));
        i += 1;
        assert(updated_entries(old_entries.take(i as int), task_id as nat, key, val, now as nat)
            =~= before.push(entry@));
    }
    assert(old_entries.take(parsed.len() as int) == old_entries);
    render_entries(&changed)
}

/// The store text `contents` written anew without the tasks with the id
/// `task_id`. The other entries stay.
pub fn delete_task(contents: &str, task_id: u64) -> (new_contents: String)
    ensures
        new_contents@ == render(without_id(entries(contents@), task_id as nat)),
{
    let parsed = parse_entries(contents);
    let ghost old_entries = entry_views(parsed@);
    let mut kept: Vec<Entry> = Vec::new();
    let mut i: usize = 0;
    assert(old_entries.take(0) =~= Seq::<EntryView>::empty());
    while i < parsed.len()
        invariant
            i <= parsed.len(),
            old_entries == entry_views(parsed@),
            entry_views(kept@) == without_id(old_entries.take(i as int), task_id as nat),
        decreases parsed.len() - i,
    {
        let ghost before = entry_views(kept@);
        assert(old_entries.take(i + 1).drop_last() == old_entries.take(i as int));
        assert(old_entries.take(i + 1).last() == parsed@[i as int]@);
        match &parsed[i] {
            Entry::Decoded(task) => {
                if task.id != task_id {
                    let entry = Entry::Decoded(copy_task(task));
                    kept.push(entry);
                    assert(entry_views(kept@) =~= before.push(entry@));
                }
            },
            Entry::Opaque(text) => {
                let entry = Entry::Opaque(text.clone());
                kept.push(entry);
                assert(entry_views(kept@) =~= before.push(entry@));
            },
        }
        i += 1;
    }
    assert(old_entries.take(parsed.len() as int) == old_entries);
    render_entries(&kept)
}

/// The lowest id that no task of the store text `contents` has.
pub fn find_lowest_available_id(contents: &str) -> (id: u64)
    ensures
        is_lowest_available(ids_of(tasks_of(entries(contents@))), id as nat),
        id == lowest_available(ids_of(tasks_of(entries(contents@)))),
{
    let tasks = list_tasks(contents);
    let mut ids: Vec<u64> = Vec::new();
    let mut i: usize = 0;
    while i < tasks.len()
        invariant
            i <= tasks.len(),
            numbers(ids@) == ids_of(task_views(tasks@)).take(i as int),
        decreases tasks.len() - i,
    {
        let ghost before = numbers(ids@);
        ids.push(tasks[i].id);
        assert(numbers(ids@) =~= before.push(tasks@[i as int].id as nat));
        i += 1;
        assert(ids_of(task_views(tasks@)).take(i as int) =~= before.push(
            tasks@[i - 1].id as nat,
        ));
    }
    assert(ids_of(task_views(tasks@)).take(tasks.len() as int) == ids_of(task_views(tasks@)));
    lowest_available_id(&ids)
}

/// The store text `contents` written anew with a new task as its last
/// entry: it has the lowest id that no task had, the given description, the
/// status `todo`, and `now` as the time of its creation and of its last
/// update.
pub fn create_task(contents: &str, description: String, now: u64) -> (new_contents: String)
    ensures
        new_contents@ == render(with_new_task(entries(contents@), description@, now as nat)),
{
    let id = find_lowest_available_id(contents);
    let task = Task::new(id, description, now);
    write_task(contents, task)
}

} // verus!
