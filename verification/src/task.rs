//! The task record and its text form.
//!
//! A record is written as `{"id":0,"description":"..","status":"..",
//! "created_at":0,"updated_at":0}`. It is read back by naive division: the
//! outer braces are trimmed, the rest is divided at every `,`, each part at
//! every `:`, and a part that yields exactly one key and one value is a
//! member. Where a key is given more than once, its last value counts.
//!
//! The values are not escaped. A description or a status is therefore read
//! back as it was written only if it holds no `,` and no `:` and neither
//! starts nor ends with `"`; with a `:` in it the record cannot be read at
//! all. `lemma_decode_encode` states what is read back, and
//! `lemma_decoded_task` that nothing else ever is.
use crate::decimal::{
    all_digits, decimal_digits, is_digit, lemma_decimal_digits, lemma_parse_decimal_digits,
    parse_number, parse_u64, push_decimal,
};
use crate::text::{
    blank_free, chars_of, drawn_from, extend, free_of, is_blank, join, lemma_free_of_char,
    lemma_split_char_pieces, lemma_split_join, lemma_trim, lemma_trim_between,
    lemma_trim_nothing, lemma_trim_wrapped, lemma_without_blanks_concat,
    lemma_without_blanks_same, occurs_at, same_text, split, split_text, string_of, texts, trim,
    trim_text, without_blanks,
};
use vstd::prelude::*;

verus! {

/// One tracked work item.
#[derive(Debug, Clone, PartialEq, Eq)]
pub struct Task {
    pub id: u64,
    pub description: String,
    pub status: String,
    pub created_at: u64,
    pub updated_at: u64,
}

/// The mathematical value of a `Task`.
pub struct TaskView {
    pub id: nat,
    pub description: Seq<char>,
    pub status: Seq<char>,
    pub created_at: nat,
    pub updated_at: nat,
}

impl View for Task {
    type V = TaskView;

    open spec fn view(&self) -> TaskView {
        TaskView {
            id: self.id as nat,
            description: self.description@,
            status: self.status@,
            created_at: self.created_at as nat,
            updated_at: self.updated_at as nat,
        }
    }
}

/// The view of an optional task.
pub open spec fn task_view(t: Option<Task>) -> Option<TaskView> {
    match t {
        Some(t) => Some(t@),
        None => None,
    }
}

/// The key of the id.
pub open spec fn key_id() -> Seq<char> {
    "id"@
}

/// The key of the description.
pub open spec fn key_description() -> Seq<char> {
    "description"@
}

/// The key of the status.
pub open spec fn key_status() -> Seq<char> {
    "status"@
}

/// The key of the time of creation.
pub open spec fn key_created_at() -> Seq<char> {
    "created_at"@
}

/// The key of the time of the last update.
pub open spec fn key_updated_at() -> Seq<char> {
    "updated_at"@
}

/// The status of a task that was just created.
pub open spec fn initial_status() -> Seq<char> {
    "todo"@
}

// ---------------------------------------------------------------------
// Writing
// ---------------------------------------------------------------------

/// `s` between double quotes.
pub open spec fn quoted(s: Seq<char>) -> Seq<char> {
    seq!['"'] + s + seq!['"']
}

/// The member `"key":value`.
pub open spec fn member(key: Seq<char>, value: Seq<char>) -> Seq<char> {
    quoted(key) + seq![':'] + value
}

/// The five members of a record, in the order in which they are written.
pub open spec fn members_of(t: TaskView) -> Seq<Seq<char>> {
    seq![
        member(key_id(), decimal_digits(t.id)),
        member(key_description(), quoted(t.description)),
        member(key_status(), quoted(t.status)),
        member(key_created_at(), decimal_digits(t.created_at)),
        member(key_updated_at(), decimal_digits(t.updated_at)),
    ]
}

/// The text form of a task: its members, separated by commas, in braces.
pub open spec fn encode_task(t: TaskView) -> Seq<char> {
    seq!['{'] + join(members_of(t), seq![',']) + seq!['}']
}

// ---------------------------------------------------------------------
// Reading
// ---------------------------------------------------------------------

/// The key and the value of `part`, if dividing it at `:` gives exactly two
/// pieces; the quotes at the ends of either are trimmed.
pub open spec fn member_of(part: Seq<char>) -> Option<(Seq<char>, Seq<char>)> {
    let pieces = split(part, seq![':']);
    if pieces.len() == 2 {
        Some((trim(pieces[0], '"', '"'), trim(pieces[1], '"', '"')))
    } else {
        None
    }
}

/// The value that `parts` give to `key`: that of the last member with this
/// key.
pub open spec fn lookup(parts: Seq<Seq<char>>, key: Seq<char>) -> Option<Seq<char>>
    decreases parts.len(),
{
    if parts.len() == 0 {
        None
    } else {
        match member_of(parts.last()) {
            Some((k, v)) => if k == key {
                Some(v)
            } else {
                lookup(parts.drop_last(), key)
            },
            None => lookup(parts.drop_last(), key),
        }
    }
}

/// The number that `parts` give to `key`.
pub open spec fn lookup_number(parts: Seq<Seq<char>>, key: Seq<char>) -> Option<nat> {
    match lookup(parts, key) {
        Some(v) => parse_number(v),
        None => None,
    }
}

/// The parts of a fragment: what stands between its outer braces, divided at
/// every comma.
pub open spec fn parts_of(fragment: Seq<char>) -> Seq<Seq<char>> {
    split(trim(fragment, '{', '}'), seq![','])
}

/// The task that a fragment holds. There is one if the fragment gives a
/// value to each of the five keys and those of `id`, `created_at` and
/// `updated_at` are numbers of 64 bits.
pub open spec fn decode_task(fragment: Seq<char>) -> Option<TaskView> {
    let parts = parts_of(fragment);
    let id = lookup_number(parts, key_id());
    let description = lookup(parts, key_description());
    let status = lookup(parts, key_status());
    let created_at = lookup_number(parts, key_created_at());
    let updated_at = lookup_number(parts, key_updated_at());
    if id is Some && description is Some && status is Some && created_at is Some
        && updated_at is Some {
        Some(
            TaskView {
                id: id->0,
                description: description->0,
                status: status->0,
                created_at: created_at->0,
                updated_at: updated_at->0,
            },
        )
    } else {
        None
    }
}

// ---------------------------------------------------------------------
// Updating
// ---------------------------------------------------------------------

/// The task `t` after an update at time `now`: `value` replaces the
/// description or the status if `key` names one of them and a value is
/// given; `updated_at` becomes `now` in every case.
pub open spec fn updated_task(
    t: TaskView,
    key: Option<Seq<char>>,
    value: Option<Seq<char>>,
    now: nat,
) -> TaskView {
    TaskView {
        id: t.id,
        description: if value is Some && key == Some(key_description()) {
            value->0
        } else {
            t.description
        },
        status: if value is Some && key == Some(key_status()) {
            value->0
        } else {
            t.status
        },
        created_at: t.created_at,
        updated_at: now,
    }
}

/// The key and the value of `part`, as `member_of` defines them.
fn read_member(part: &Vec<char>) -> (r: Option<(Vec<char>, Vec<char>)>)
    ensures
        match r {
            Some((k, v)) => member_of(part@) == Some((k@, v@)),
            None => member_of(part@) is None,
        },
{
    let mut colon: Vec<char> = Vec::new();
    colon.push(':');
    assert(colon@ =~= seq![':']);
    let pieces = split_text(part, &colon);
    if pieces.len() == 2 {
        let k = trim_text(&pieces[0], '"', '"');
        let v = trim_text(&pieces[1], '"', '"');
        assert(texts(pieces@)[0] == pieces@[0]@);
        assert(texts(pieces@)[1] == pieces@[1]@);
        Some((k, v))
    } else {
        assert(texts(pieces@).len() == pieces@.len());
        None
    }
}

/// The value that `parts` give to `key`, as `lookup` defines it.
fn lookup_value(parts: &Vec<Vec<char>>, key: &str) -> (r: Option<Vec<char>>)
    ensures
        match r {
            Some(v) => lookup(texts(parts@), key@) == Some(v@),
            None => lookup(texts(parts@), key@) is None,
        },
{
    let wanted = chars_of(key);
    let mut i: usize = parts.len();
    assert(texts(parts@).take(i as int) == texts(parts@));
    while i > 0
        invariant
            i <= parts.len(),
            wanted@ == key@,
            lookup(texts(parts@), key@) == lookup(texts(parts@).take(i as int), key@),
        decreases i,
    {
        i -= 1;
        assert(texts(parts@).take(i + 1).last() == parts@[i as int]@);
        assert(texts(parts@).take(i + 1).drop_last() == texts(parts@).take(i as int));
        match read_member(&parts[i]) {
            Some((k, v)) => {
                if same_text(&k, &wanted) {
                    return Some(v);
                }
            },
            None => {},
        }
    }
    None
}

/// The number that `parts` give to `key`, as `lookup_number` defines it.
fn lookup_u64(parts: &Vec<Vec<char>>, key: &str) -> (r: Option<u64>)
    ensures
        match r {
            Some(n) => lookup_number(texts(parts@), key@) == Some(n as nat),
            None => lookup_number(texts(parts@), key@) is None,
        },
{
    match lookup_value(parts, key) {
        Some(v) => parse_u64(&v),
        None => None,
    }
}

impl Task {
    /// A new task with status `todo`, created and last updated at `now`
    /// (seconds since the epoch).
    pub fn new(id: u64, description: String, now: u64) -> (task: Task)
        ensures
            task@ == (TaskView {
                id: id as nat,
                description: description@,
                status: initial_status(),
                created_at: now as nat,
                updated_at: now as nat,
            }),
    {
        Task { id, description, status: "todo".to_owned(), created_at: now, updated_at: now }
    }

    /// The text form of the task.
    pub fn to_json(&self) -> (json: String)
        ensures
            json@ == encode_task(self@),
    {
        let chars = self.to_chars();
        string_of(&chars)
    }

    /// The text form of the task, as characters.
    pub fn to_chars(&self) -> (out: Vec<char>)
        ensures
            out@ == encode_task(self@),
    {
        let mut out: Vec<char> = Vec::new();
        out.push('{');
        push_key(&mut out, "id");
        push_decimal(&mut out, self.id);
        out.push(',');
        push_key(&mut out, "description");
        push_quoted(&mut out, self.description.as_str());
        out.push(',');
        push_key(&mut out, "status");
        push_quoted(&mut out, self.status.as_str());
        out.push(',');
        push_key(&mut out, "created_at");
        push_decimal(&mut out, self.created_at);
        out.push(',');
        push_key(&mut out, "updated_at");
        push_decimal(&mut out, self.updated_at);
        out.push('}');
        proof {
            lemma_join_members(self@);
            let m = members_of(self@);
            let c = seq![','];
            assert(out@ =~= seq!['{'] + (m[0] + c + m[1] + c + m[2] + c + m[3] + c + m[4])
                + seq!['}']);
        }
        out
    }

    /// The task that `json` holds, if it holds one.
    pub fn from_json(json: &str) -> (task: Option<Task>)
        ensures
            task_view(task) == decode_task(json@),
    {
        let chars = chars_of(json);
        Task::from_chars(&chars)
    }

    /// The task that the fragment `chars` holds, if it holds one.
    pub fn from_chars(chars: &Vec<char>) -> (task: Option<Task>)
        ensures
            task_view(task) == decode_task(chars@),
    {
        let inner = trim_text(chars, '{', '}');
        let mut comma: Vec<char> = Vec::new();
        comma.push(',');
        assert(comma@ =~= seq![',']);
        let parts = split_text(&inner, &comma);
        assert(texts(parts@) == parts_of(chars@));
        let id = lookup_u64(&parts, "id");
        let description = lookup_value(&parts, "description");
        let status = lookup_value(&parts, "status");
        let created_at = lookup_u64(&parts, "created_at");
        let updated_at = lookup_u64(&parts, "updated_at");
        match (id, description, status, created_at, updated_at) {
            (Some(id), Some(description), Some(status), Some(created_at), Some(updated_at)) => {
                Some(
                    Task {
                        id,
                        description: string_of(&description),
                        status: string_of(&status),
                        created_at,
                        updated_at,
                    },
                )
            },
            _ => None,
        }
    }

    /// Applies an update at time `now`: with a value and the key
    /// `description` or `status`, that field takes the value; any other key,
    /// or no value, changes no field. `updated_at` becomes `now` in every
    /// case.
    pub fn update(&mut self, key: Option<String>, value: Option<String>, now: u64)
        ensures
            final(self)@ == updated_task(
                old(self)@,
                match key {
                    Some(k) => Some(k@),
                    None => None,
                },
                match value {
                    Some(v) => Some(v@),
                    None => None,
                },
                now as nat,
            ),
    {
        proof {
            reveal_strlit("description");
            reveal_strlit("status");
            assert(key_description().len() != key_status().len());
        }
        if let Some(val) = value {
            if let Some(k) = key {
                let name = chars_of(k.as_str());
                if same_text(&name, &chars_of("description")) {
                    self.description = val;
                } else if same_text(&name, &chars_of("status")) {
                    self.status = val;
                }
            }
        }
        self.updated_at = now;
    }
}

/// Appends `"key":` to `out`.
fn push_key(out: &mut Vec<char>, key: &str)
    ensures
        final(out)@ == old(out)@ + quoted(key@) + seq![':'],
{
    push_quoted(out, key);
    out.push(':');
}

/// Appends `s` between double quotes to `out`.
fn push_quoted(out: &mut Vec<char>, s: &str)
    ensures
        final(out)@ == old(out)@ + quoted(s@),
{
    out.push('"');
    let chars = chars_of(s);
    extend(out, &chars);
    out.push('"');
    assert(final(out)@ =~= old(out)@ + quoted(s@));
}

// ---------------------------------------------------------------------
// What is written can be read
// ---------------------------------------------------------------------

/// Whether `s` holds neither of the characters at which a fragment is
/// divided: no `,` and no `:`.
pub open spec fn separator_free(s: Seq<char>) -> bool {
    !s.contains(',') && !s.contains(':')
}

/// Whether a description or a status is read back as it was written: it
/// holds no `,` and no `:`, and neither starts nor ends with `"`.
pub open spec fn survives_decoding(s: Seq<char>) -> bool {
    &&& separator_free(s)
    &&& s.len() > 0 ==> s[0] != '"' && s.last() != '"'
}

/// The task that is read where `t` was written: the quotes at the ends of
/// its description and of its status are gone.
pub open spec fn as_decoded(t: TaskView) -> TaskView {
    TaskView {
        id: t.id,
        description: trim(t.description, '"', '"'),
        status: trim(t.status, '"', '"'),
        created_at: t.created_at,
        updated_at: t.updated_at,
    }
}

/// The task `t` with its description and its status cleared of blanks.
pub open spec fn cleared(t: TaskView) -> TaskView {
    TaskView {
        id: t.id,
        description: without_blanks(t.description),
        status: without_blanks(t.status),
        created_at: t.created_at,
        updated_at: t.updated_at,
    }
}

/// Whether the numbers of `t` are numbers of 64 bits, as those of every
/// `Task` are.
pub open spec fn fits(t: TaskView) -> bool {
    t.id <= u64::MAX && t.created_at <= u64::MAX && t.updated_at <= u64::MAX
}

/// Whether `key` can name a member: it is not empty, holds no `,` and no
/// `:`, and has no `"` at its ends.
pub open spec fn is_name(key: Seq<char>) -> bool {
    key.len() > 0 && survives_decoding(key)
}

/// The five keys are names, and no two of them are equal.
pub proof fn lemma_keys()
    ensures
        is_name(key_id()),
        is_name(key_description()),
        is_name(key_status()),
        is_name(key_created_at()),
        is_name(key_updated_at()),
        key_id() != key_description(),
        key_id() != key_status(),
        key_id() != key_created_at(),
        key_id() != key_updated_at(),
        key_description() != key_status(),
        key_description() != key_created_at(),
        key_description() != key_updated_at(),
        key_status() != key_created_at(),
        key_status() != key_updated_at(),
        key_created_at() != key_updated_at(),
{
    reveal_strlit("id");
    reveal_strlit("description");
    reveal_strlit("status");
    reveal_strlit("created_at");
    reveal_strlit("updated_at");
    assert(key_id().len() == 2);
    assert(key_description().len() == 11);
    assert(key_status().len() == 6);
    assert(key_created_at().len() == 10);
    assert(key_updated_at().len() == 10);
    assert(key_created_at()[0] != key_updated_at()[0]);
}

/// The join of the five members of a record, written out.
pub proof fn lemma_join_members(t: TaskView)
    ensures
        join(members_of(t), seq![',']) == members_of(t)[0] + seq![','] + members_of(t)[1]
            + seq![','] + members_of(t)[2] + seq![','] + members_of(t)[3] + seq![',']
            + members_of(t)[4],
{
    let m = members_of(t);
    let c = seq![','];
    assert(join(m.take(1), c) == m[0]);
    assert(m.take(2).drop_last() == m.take(1));
    assert(m.take(3).drop_last() == m.take(2));
    assert(m.take(4).drop_last() == m.take(3));
    assert(m.take(5).drop_last() == m.take(4));
    assert(m.take(5) == m);
    assert(join(m.take(2), c) == m[0] + c + m[1]);
    assert(join(m.take(3), c) == m[0] + c + m[1] + c + m[2]);
    assert(join(m.take(4), c) == m[0] + c + m[1] + c + m[2] + c + m[3]);
}

/// A run of digits holds no `,` and no `:`, and has no `"` at its ends.
pub proof fn lemma_digits_survive(s: Seq<char>)
    requires
        all_digits(s),
    ensures
        survives_decoding(s),
{
    assert forall|i: int| 0 <= i < s.len() implies s[i] != ',' && s[i] != ':' by {
        assert(is_digit(s[i]));
    }
    if s.len() > 0 {
        assert(is_digit(s[0]));
        assert(is_digit(s.last()));
    }
}

/// The member written for a name and a value gives back the name and the
/// value without the quotes at its ends.
pub proof fn lemma_member_of(key: Seq<char>, value: Seq<char>)
    requires
        is_name(key),
        !value.contains(':'),
    ensures
        member_of(member(key, value)) == Some((key, trim(value, '"', '"'))),
        !member(key, value).contains(',') <== !value.contains(','),
{
    let colon = seq![':'];
    let q = quoted(key);
    assert forall|i: int| 0 <= i < q.len() implies q[i] != ':' && q[i] != ',' by {
        if 0 < i < q.len() - 1 {
            assert(key.contains(key[i - 1]));
        }
    }
    lemma_free_of_char(q, ':');
    lemma_free_of_char(value, ':');
    let parts = seq![q, value];
    assert(parts.drop_last() =~= seq![q]);
    assert(join(parts.drop_last(), colon) == q);
    assert(join(parts, colon) == member(key, value));
    lemma_split_join(parts, colon);
    lemma_trim_wrapped(key, '"', '"', '"', '"');
    if !value.contains(',') {
        let m = member(key, value);
        assert forall|i: int| 0 <= i < m.len() implies m[i] != ',' by {
            if i < q.len() {
                assert(m[i] == q[i]);
            } else if i > q.len() {
                assert(value.contains(value[i - q.len() - 1]));
            }
        }
    }
}

/// The value of a key is that of the member at `at` where that member has
/// the key and no later member has it.
pub proof fn lemma_lookup_at(parts: Seq<Seq<char>>, at: int, key: Seq<char>, value: Seq<char>)
    requires
        0 <= at < parts.len(),
        member_of(parts[at]) == Some((key, value)),
        forall|j: int|
            at < j < parts.len() ==> match member_of(#[trigger] parts[j]) {
                Some((k, v)) => k != key,
                None => true,
            },
    ensures
        lookup(parts, key) == Some(value),
    decreases parts.len(),
{
    if at < parts.len() - 1 {
        assert(parts.drop_last()[at] == parts[at]);
        assert forall|j: int| at < j < parts.drop_last().len() implies match member_of(
            #[trigger] parts.drop_last()[j],
        ) {
            Some((k, v)) => k != key,
            None => true,
        } by {
            assert(parts.drop_last()[j] == parts[j]);
        }
        lemma_lookup_at(parts.drop_last(), at, key, value);
    }
}

/// Writing a task and reading the text gives the task back without the
/// quotes at the ends of its description and of its status, where these
/// two hold no `,` and no `:`.
pub proof fn lemma_decode_encode_trims(t: TaskView)
    requires
        fits(t),
        separator_free(t.description),
        separator_free(t.status),
    ensures
        decode_task(encode_task(t)) == Some(as_decoded(t)),
{
    lemma_keys();
    let m = members_of(t);
    let c = seq![','];
    let body = join(m, c);
    let id = decimal_digits(t.id);
    let created = decimal_digits(t.created_at);
    let updated = decimal_digits(t.updated_at);
    let description = quoted(t.description);
    let status = quoted(t.status);
    lemma_decimal_digits(t.id);
    lemma_decimal_digits(t.created_at);
    lemma_decimal_digits(t.updated_at);
    lemma_digits_survive(id);
    lemma_digits_survive(created);
    lemma_digits_survive(updated);
    lemma_parse_decimal_digits(t.id);
    lemma_parse_decimal_digits(t.created_at);
    lemma_parse_decimal_digits(t.updated_at);
    lemma_quoted_holds(t.description, ',');
    lemma_quoted_holds(t.description, ':');
    lemma_quoted_holds(t.status, ',');
    lemma_quoted_holds(t.status, ':');
    lemma_member_of(key_id(), id);
    lemma_member_of(key_description(), description);
    lemma_member_of(key_status(), status);
    lemma_member_of(key_created_at(), created);
    lemma_member_of(key_updated_at(), updated);
    lemma_trim_nothing(id, '"', '"');
    lemma_trim_nothing(created, '"', '"');
    lemma_trim_nothing(updated, '"', '"');
    lemma_trim_between(t.description, '"', '"', '"', '"');
    lemma_trim_between(t.status, '"', '"', '"', '"');
    // The parts of the text are the five members.
    lemma_join_members(t);
    assert(body[0] == '"');
    assert(body.last() == updated.last());
    assert(is_digit(updated.last()));
    lemma_trim_wrapped(body, '{', '}', '{', '}');
    assert forall|i: int| 0 <= i < m.len() implies free_of(#[trigger] m[i], c) by {
        lemma_free_of_char(m[i], ',');
    }
    lemma_split_join(m, c);
    assert(parts_of(encode_task(t)) == m);
    // Each key is given once.
    lemma_lookup_at(m, 0, key_id(), id);
    lemma_lookup_at(m, 1, key_description(), trim(t.description, '"', '"'));
    lemma_lookup_at(m, 2, key_status(), trim(t.status, '"', '"'));
    lemma_lookup_at(m, 3, key_created_at(), created);
    lemma_lookup_at(m, 4, key_updated_at(), updated);
}

/// Writing a task and reading the text gives the task back, where its
/// description and its status hold no `,` and no `:` and have no `"` at
/// their ends.
pub proof fn lemma_decode_encode(t: TaskView)
    requires
        fits(t),
        survives_decoding(t.description),
        survives_decoding(t.status),
    ensures
        decode_task(encode_task(t)) == Some(t),
{
    lemma_decode_encode_trims(t);
    lemma_trim_nothing(t.description, '"', '"');
    lemma_trim_nothing(t.status, '"', '"');
}

/// Quotes add neither a `,` nor a `:`.
proof fn lemma_quoted_holds(s: Seq<char>, c: char)
    requires
        c != '"',
        !s.contains(c),
    ensures
        !quoted(s).contains(c),
{
    let q = quoted(s);
    assert forall|i: int| 0 <= i < q.len() implies q[i] != c by {
        if 0 < i < q.len() - 1 {
            assert(s.contains(s[i - 1]));
        }
    }
}

// ---------------------------------------------------------------------
// What a fragment gives, and the fragment of a task
// ---------------------------------------------------------------------

/// The value of a member holds no `:`, has no `"` at its ends, and holds no
/// character that the part did not hold.
pub proof fn lemma_member_value(part: Seq<char>)
    ensures
        match member_of(part) {
            Some((k, v)) => {
                &&& !v.contains(':')
                &&& v.len() > 0 ==> v[0] != '"' && v.last() != '"'
                &&& drawn_from(v, part)
            },
            None => true,
        },
{
    let pieces = split(part, seq![':']);
    if pieces.len() == 2 {
        let v = trim(pieces[1], '"', '"');
        lemma_split_char_pieces(part, ':', 1);
        lemma_trim(pieces[1], '"', '"');
        assert forall|i: int| 0 <= i < v.len() implies v[i] != ':' && part.contains(
            #[trigger] v[i],
        ) by {
            assert(pieces[1].contains(v[i]));
            let k = choose|k: int| 0 <= k < pieces[1].len() && pieces[1][k] == v[i];
            assert(part.contains(pieces[1][k]));
        }
    }
}

/// A value that is looked up is the value of one of the parts.
pub proof fn lemma_lookup_is_member(parts: Seq<Seq<char>>, key: Seq<char>)
    requires
        lookup(parts, key) is Some,
    ensures
        exists|i: int|
            0 <= i < parts.len() && member_of(#[trigger] parts[i]) == Some(
                (key, lookup(parts, key)->0),
            ),
    decreases parts.len(),
{
    let last = member_of(parts.last());
    let found = match last {
        Some((k, v)) => k == key,
        None => false,
    };
    if found {
        assert(member_of(parts[parts.len() - 1]) == Some((key, lookup(parts, key)->0)));
    } else {
        lemma_lookup_is_member(parts.drop_last(), key);
        let i = choose|i: int|
            0 <= i < parts.drop_last().len() && member_of(#[trigger] parts.drop_last()[i])
                == Some((key, lookup(parts, key)->0));
        assert(parts.drop_last()[i] == parts[i]);
    }
}

/// A value that is looked up in the parts of a fragment survives decoding
/// and holds no character that the fragment did not hold.
pub proof fn lemma_lookup_in_fragment(fragment: Seq<char>, key: Seq<char>)
    requires
        lookup(parts_of(fragment), key) is Some,
    ensures
        survives_decoding(lookup(parts_of(fragment), key)->0),
        drawn_from(lookup(parts_of(fragment), key)->0, fragment),
{
    let inner = trim(fragment, '{', '}');
    let parts = parts_of(fragment);
    let v = lookup(parts, key)->0;
    lemma_lookup_is_member(parts, key);
    let i = choose|i: int|
        0 <= i < parts.len() && member_of(#[trigger] parts[i]) == Some((key, v));
    lemma_member_value(parts[i]);
    lemma_split_char_pieces(inner, ',', i);
    lemma_trim(fragment, '{', '}');
    assert forall|j: int| 0 <= j < v.len() implies v[j] != ',' && fragment.contains(
        #[trigger] v[j],
    ) by {
        assert(parts[i].contains(v[j]));
        let k = choose|k: int| 0 <= k < parts[i].len() && parts[i][k] == v[j];
        assert(inner.contains(parts[i][k]));
        let l = choose|l: int| 0 <= l < inner.len() && inner[l] == v[j];
        assert(fragment.contains(inner[l]));
    }
}

/// The task that a fragment holds has numbers of 64 bits, and a
/// description and a status that survive decoding and hold no character
/// that the fragment did not hold.
pub proof fn lemma_decoded_task(fragment: Seq<char>)
    requires
        decode_task(fragment) is Some,
    ensures
        fits(decode_task(fragment)->0),
        survives_decoding(decode_task(fragment)->0.description),
        survives_decoding(decode_task(fragment)->0.status),
        drawn_from(decode_task(fragment)->0.description, fragment),
        drawn_from(decode_task(fragment)->0.status, fragment),
{
    lemma_lookup_in_fragment(fragment, key_description());
    lemma_lookup_in_fragment(fragment, key_status());
}

/// Clearing a quoted text of blanks clears the text between the quotes.
proof fn lemma_quoted_without_blanks(s: Seq<char>)
    ensures
        without_blanks(quoted(s)) == quoted(without_blanks(s)),
{
    let q = seq!['"'];
    lemma_without_blanks_same(q);
    lemma_without_blanks_concat(q + s, q);
    lemma_without_blanks_concat(q, s);
}

/// Clearing a member of blanks clears its value, where its key holds none.
proof fn lemma_member_without_blanks(key: Seq<char>, value: Seq<char>)
    requires
        blank_free(key),
    ensures
        without_blanks(member(key, value)) == member(key, without_blanks(value)),
{
    let colon = seq![':'];
    lemma_without_blanks_same(colon);
    lemma_without_blanks_same(key);
    lemma_quoted_without_blanks(key);
    lemma_without_blanks_concat(quoted(key) + colon, value);
    lemma_without_blanks_concat(quoted(key), colon);
}

/// Digits are no blanks.
proof fn lemma_digits_blank_free(s: Seq<char>)
    requires
        all_digits(s),
    ensures
        blank_free(s),
        without_blanks(s) == s,
{
    assert forall|i: int| 0 <= i < s.len() implies !is_blank(#[trigger] s[i]) by {
        assert(is_digit(s[i]));
    }
    lemma_without_blanks_same(s);
}

/// The text of a task, cleared of blanks, is the text of the task with its
/// description and its status cleared of blanks.
pub proof fn lemma_encode_without_blanks(t: TaskView)
    ensures
        without_blanks(encode_task(t)) == encode_task(cleared(t)),
{
    reveal_strlit("id");
    reveal_strlit("description");
    reveal_strlit("status");
    reveal_strlit("created_at");
    reveal_strlit("updated_at");
    let m = members_of(t);
    let n = members_of(cleared(t));
    let c = seq![','];
    lemma_decimal_digits(t.id);
    lemma_decimal_digits(t.created_at);
    lemma_decimal_digits(t.updated_at);
    lemma_digits_blank_free(decimal_digits(t.id));
    lemma_digits_blank_free(decimal_digits(t.created_at));
    lemma_digits_blank_free(decimal_digits(t.updated_at));
    lemma_quoted_without_blanks(t.description);
    lemma_quoted_without_blanks(t.status);
    lemma_member_without_blanks(key_id(), decimal_digits(t.id));
    lemma_member_without_blanks(key_description(), quoted(t.description));
    lemma_member_without_blanks(key_status(), quoted(t.status));
    lemma_member_without_blanks(key_created_at(), decimal_digits(t.created_at));
    lemma_member_without_blanks(key_updated_at(), decimal_digits(t.updated_at));
    assert(without_blanks(m[0]) == n[0]);
    assert(without_blanks(m[1]) == n[1]);
    assert(without_blanks(m[2]) == n[2]);
    assert(without_blanks(m[3]) == n[3]);
    assert(without_blanks(m[4]) == n[4]);
    lemma_join_members(t);
    lemma_join_members(cleared(t));
    lemma_without_blanks_same(c);
    lemma_without_blanks_same(seq!['{']);
    lemma_without_blanks_same(seq!['}']);
    let j1 = m[0] + c;
    let j2 = j1 + m[1];
    let j3 = j2 + c;
    let j4 = j3 + m[2];
    let j5 = j4 + c;
    let j6 = j5 + m[3];
    let j7 = j6 + c;
    let j8 = j7 + m[4];
    lemma_without_blanks_concat(m[0], c);
    lemma_without_blanks_concat(j1, m[1]);
    lemma_without_blanks_concat(j2, c);
    lemma_without_blanks_concat(j3, m[2]);
    lemma_without_blanks_concat(j4, c);
    lemma_without_blanks_concat(j5, m[3]);
    lemma_without_blanks_concat(j6, c);
    lemma_without_blanks_concat(j7, m[4]);
    assert(join(m, c) == j8);
    lemma_without_blanks_concat(seq!['{'], j8);
    lemma_without_blanks_concat(seq!['{'] + j8, seq!['}']);
}

/// The shape of the text of a task whose description and status hold no
/// `,`: it starts with `{`, its last character is the only `}` that a `,`
/// could follow, and the one before the last is a digit.
pub proof fn lemma_encode_shape(t: TaskView)
    requires
        !t.description.contains(','),
        !t.status.contains(','),
    ensures
        encode_task(t).len() >= 3,
        encode_task(t)[0] == '{',
        encode_task(t).last() == '}',
        is_digit(encode_task(t)[encode_task(t).len() - 2]),
        forall|j: int| !occurs_at(encode_task(t), seq!['}', ','], j),
{
    lemma_keys();
    let m = members_of(t);
    let c = seq![','];
    let body = join(m, c);
    let text = encode_task(t);
    let id = decimal_digits(t.id);
    let created = decimal_digits(t.created_at);
    let updated = decimal_digits(t.updated_at);
    lemma_decimal_digits(t.id);
    lemma_decimal_digits(t.created_at);
    lemma_decimal_digits(t.updated_at);
    lemma_digits_survive(id);
    lemma_digits_survive(created);
    lemma_digits_survive(updated);
    lemma_join_members(t);
    assert(body.last() == updated.last());
    assert(is_digit(updated.last()));
    assert(text[text.len() - 2] == body.last());
    let a = seq!['{'] + m[0];
    let b = a + c + m[1];
    let d = b + c + m[2];
    let e = d + c + m[3];
    assert(text =~= e + c + m[4] + seq!['}']);
    assert(is_digit(id.last()));
    assert(is_digit(created.last()));
    assert(m[0].last() == id.last());
    assert(m[1].last() == '"');
    assert(m[2].last() == '"');
    assert(m[3].last() == created.last());
    assert forall|j: int| !occurs_at(text, seq!['}', ','], j) by {
        if occurs_at(text, seq!['}', ','], j) {
            let pair = text.subrange(j, j + 2);
            assert(pair[0] == text[j]);
            assert(pair[1] == text[j + 1]);
            assert(text[j] == '}' && text[j + 1] == ',');
            lemma_member_holds_no_comma(t, 0);
            lemma_member_holds_no_comma(t, 1);
            lemma_member_holds_no_comma(t, 2);
            lemma_member_holds_no_comma(t, 3);
            lemma_member_holds_no_comma(t, 4);
            let k = j + 1;
            if k < a.len() {
                assert(k >= 1);
                assert(m[0].contains(m[0][k - 1]));
            } else if k == a.len() {
            } else if k < b.len() {
                assert(m[1].contains(m[1][k - a.len() - 1]));
            } else if k == b.len() {
            } else if k < d.len() {
                assert(m[2].contains(m[2][k - b.len() - 1]));
            } else if k == d.len() {
            } else if k < e.len() {
                assert(m[3].contains(m[3][k - d.len() - 1]));
            } else if k == e.len() {
            } else if k < e.len() + 1 + m[4].len() {
                assert(m[4].contains(m[4][k - e.len() - 1]));
            } else {
            }
        }
    }
}

/// No member of a task holds a `,` where its description and status hold
/// none.
proof fn lemma_member_holds_no_comma(t: TaskView, i: int)
    requires
        0 <= i < 5,
        !t.description.contains(','),
        !t.status.contains(','),
    ensures
        !members_of(t)[i].contains(','),
        members_of(t)[i].len() > 0,
{
    lemma_keys();
    lemma_decimal_digits(t.id);
    lemma_decimal_digits(t.created_at);
    lemma_decimal_digits(t.updated_at);
    lemma_digits_survive(decimal_digits(t.id));
    lemma_digits_survive(decimal_digits(t.created_at));
    lemma_digits_survive(decimal_digits(t.updated_at));
    lemma_quoted_holds(t.description, ',');
    lemma_quoted_holds(t.status, ',');
    let m = members_of(t)[i];
    let (key, value) = if i == 0 {
        (key_id(), decimal_digits(t.id))
    } else if i == 1 {
        (key_description(), quoted(t.description))
    } else if i == 2 {
        (key_status(), quoted(t.status))
    } else if i == 3 {
        (key_created_at(), decimal_digits(t.created_at))
    } else {
        (key_updated_at(), decimal_digits(t.updated_at))
    };
    assert(m == member(key, value));
    let q = quoted(key);
    assert forall|k: int| 0 <= k < m.len() implies m[k] != ',' by {
        if k == 0 || k == q.len() - 1 || k == q.len() {
        } else if k < q.len() {
            assert(key.contains(key[k - 1]));
        } else {
            assert(value.contains(value[k - q.len() - 1]));
        }
    }
}

} // verus!
